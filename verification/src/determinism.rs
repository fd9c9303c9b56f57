//! The runtime is deterministic: from the same state, with the host answering the same
//! questions alike, every step, visit, round and tick has one outcome.
use vstd::prelude::*;

use crate::cancellation::{child_target, ids_ordered, lemma_cancellation_determined};
use crate::program::{find_program, Op, Program};
use crate::runtime::{
    asks_host, current_op, executed, finished_state, is_first_free, spawn_failure, wait_over,
    wake_target, Outcome, RuntimeError, TaskRecord, WaitReason,
};
use crate::schedule::{
    action_count, asked, busy_rounds, lemma_busy_rounds_extend, lemma_executed_ignores_answer,
    lemma_op_log_ignores_answer, op_log, ran_on, round_failed, round_upto, run_ends, run_visit,
    tick_run, visit, wake_answers, wake_log, wake_visit, woken_state, Effect,
};
use crate::snapshot::{op_len, slot_running, RuntimeSnapshot};

verus! {

/// Two answer sequences agree where both are defined: one is a prefix of the other.
pub open spec fn agree(s1: Seq<bool>, s2: Seq<bool>) -> bool {
    forall|i: int| 0 <= i < s1.len() && 0 <= i < s2.len() ==> s1[i] == s2[i]
}

/// Snapshots with the same fields are the same.
pub proof fn lemma_snapshot_ext<const N: usize, const S: usize>(
    a: RuntimeSnapshot<N, S>,
    b: RuntimeSnapshot<N, S>,
)
    requires
        a.tasks@ == b.tasks@,
        a.pending_signals@ == b.pending_signals@,
        a.clock == b.clock,
        a.next_task_id == b.next_task_id,
    ensures
        a == b,
{
    broadcast use vstd::array::group_array_axioms;

    assert(a.tasks =~= b.tasks) by {
        assert forall|i: int| 0 <= i < N implies a.tasks[i] == b.tasks[i] by {
            assert(a.tasks@[i] == b.tasks@[i]);
        }
    }
    assert(a.pending_signals =~= b.pending_signals) by {
        assert forall|i: int| 0 <= i < S implies a.pending_signals[i] == b.pending_signals[i] by {
            assert(a.pending_signals@[i] == b.pending_signals@[i]);
        }
    }
}

/// There is one first free slot.
pub proof fn lemma_first_free_unique(tasks: Seq<Option<TaskRecord>>, k1: int, k2: int)
    requires
        is_first_free(tasks, k1),
        is_first_free(tasks, k2),
    ensures
        k1 == k2,
{
    if k1 < k2 {
        assert(tasks[k1] is Some);
    } else if k2 < k1 {
        assert(tasks[k2] is Some);
    }
}

/// Storing a record with the same identity and parent keeps ids distinct and ordered.
pub proof fn lemma_ids_ordered_update(tasks: Seq<Option<TaskRecord>>, slot: int, t: TaskRecord)
    requires
        ids_ordered(tasks),
        0 <= slot < tasks.len(),
        tasks[slot] is Some,
        t.id == tasks[slot].unwrap().id,
        t.parent == tasks[slot].unwrap().parent,
    ensures
        ids_ordered(tasks.update(slot, Some(t))),
{
    let u = tasks.update(slot, Some(t));
    assert forall|i: int| 0 <= i < u.len() && #[trigger] u[i] is Some implies u[i].unwrap().id
        == tasks[i].unwrap().id && u[i].unwrap().parent == tasks[i].unwrap().parent && tasks[i] is Some by {
    }
}

/// A finish has one outcome: the cancellations it makes are fixed.
pub proof fn lemma_finished_determined<const N: usize, const S: usize>(
    a: RuntimeSnapshot<N, S>,
    b1: RuntimeSnapshot<N, S>,
    b2: RuntimeSnapshot<N, S>,
    slot: int,
    task: TaskRecord,
    outcome: Outcome,
)
    requires
        a.wf(),
        0 <= slot < N,
        a.tasks@[slot] == Some(task),
        finished_state(a, b1, slot, task, outcome),
        finished_state(a, b2, slot, task, outcome),
    ensures
        b1 == b2,
{
    let fin = TaskRecord { outcome, wait: WaitReason::Ready, ..task };
    crate::cancellation::lemma_wf_ids_ordered(a);
    lemma_ids_ordered_update(a.tasks@, slot, fin);
    lemma_cancellation_determined(a.tasks@.update(slot, Some(fin)), b1.tasks@, b2.tasks@, child_target(task.id));
    lemma_snapshot_ext(b1, b2);
}

/// Storing a task and spawning a child into the first free slot has one outcome.
pub proof fn lemma_with_child_determined<const N: usize, const S: usize>(
    a: RuntimeSnapshot<N, S>,
    b1: RuntimeSnapshot<N, S>,
    b2: RuntimeSnapshot<N, S>,
    slot: int,
    task: TaskRecord,
    program: crate::ids::ProgramId,
)
    requires
        crate::runtime::stored_with_child(a, b1, slot, task, program),
        crate::runtime::stored_with_child(a, b2, slot, task, program),
    ensures
        b1 == b2,
{
    let k1 = choose|k: int|
        is_first_free(a.tasks@, k) && b1.tasks@ == a.tasks@.update(slot, Some(task)).update(
            k,
            Some(crate::runtime::child_record(task, crate::runtime::next_id(a, 1), program)),
        );
    let k2 = choose|k: int|
        is_first_free(a.tasks@, k) && b2.tasks@ == a.tasks@.update(slot, Some(task)).update(
            k,
            Some(crate::runtime::child_record(task, crate::runtime::next_id(a, 1), program)),
        );
    lemma_first_free_unique(a.tasks@, k1, k2);
    lemma_snapshot_ext(b1, b2);
}

/// Storing a task and spawning two children, each into the slot then first free, has one
/// outcome.
pub proof fn lemma_with_children_determined<const N: usize, const S: usize>(
    a: RuntimeSnapshot<N, S>,
    b1: RuntimeSnapshot<N, S>,
    b2: RuntimeSnapshot<N, S>,
    slot: int,
    task: TaskRecord,
    left: crate::ids::ProgramId,
    right: crate::ids::ProgramId,
)
    requires
        crate::runtime::stored_with_children(a, b1, slot, task, left, right),
        crate::runtime::stored_with_children(a, b2, slot, task, left, right),
    ensures
        b1 == b2,
{
    let left_record = crate::runtime::child_record(task, crate::runtime::next_id(a, 1), left);
    let right_record = crate::runtime::child_record(task, crate::runtime::next_id(a, 2), right);
    let (k1, k2) = choose|k1: int, k2: int|
        is_first_free(a.tasks@, k1) && is_first_free(a.tasks@.update(k1, Some(left_record)), k2)
            && b1.tasks@ == a.tasks@.update(slot, Some(task)).update(k1, Some(left_record)).update(
            k2,
            Some(right_record),
        );
    let (m1, m2) = choose|k1: int, k2: int|
        is_first_free(a.tasks@, k1) && is_first_free(a.tasks@.update(k1, Some(left_record)), k2)
            && b2.tasks@ == a.tasks@.update(slot, Some(task)).update(k1, Some(left_record)).update(
            k2,
            Some(right_record),
        );
    lemma_first_free_unique(a.tasks@, k1, m1);
    lemma_first_free_unique(a.tasks@.update(k1, Some(left_record)), k2, m2);
    lemma_snapshot_ext(b1, b2);
}

/// Executing an op has one outcome, given the host's answer.
#[verifier::rlimit(40)]
pub proof fn lemma_executed_determined<const N: usize, const S: usize>(
    op: Op,
    slot: int,
    task: TaskRecord,
    a: RuntimeSnapshot<N, S>,
    b1: RuntimeSnapshot<N, S>,
    b2: RuntimeSnapshot<N, S>,
    programs: Seq<Program>,
    r1: Result<bool, RuntimeError>,
    r2: Result<bool, RuntimeError>,
    answer: bool,
)
    requires
        a.wf(),
        0 <= slot < N,
        a.tasks@[slot] == Some(task),
        executed(op, slot, task, a, b1, programs, r1, answer),
        executed(op, slot, task, a, b2, programs, r2, answer),
    ensures
        b1 == b2,
        r1 == r2,
{
    match op {
        Op::Succeed => {
            lemma_finished_determined(a, b1, b2, slot, task, Outcome::Succeeded);
        },
        Op::Fail => {
            lemma_finished_determined(a, b1, b2, slot, task, Outcome::Failed);
        },
        Op::Spawn(program) => {
            if spawn_failure(a, programs, program) is None {
                lemma_with_child_determined(a, b1, b2, slot, crate::runtime::next_op(task), program);
            } else {
                lemma_snapshot_ext(b1, b2);
            }
        },
        Op::BranchPredicate(_, if_true, if_false) => {
            let chosen = if answer {
                if_true
            } else {
                if_false
            };
            if spawn_failure(a, programs, chosen) is None {
                lemma_with_child_determined(
                    a,
                    b1,
                    b2,
                    slot,
                    TaskRecord { wait: WaitReason::ChildrenAll, ..crate::runtime::next_op(task) },
                    chosen,
                );
            } else {
                lemma_snapshot_ext(b1, b2);
            }
        },
        Op::RepeatUntilPredicate(predicate, program) => {
            if !answer && spawn_failure(a, programs, program) is None {
                lemma_with_child_determined(
                    a,
                    b1,
                    b2,
                    slot,
                    TaskRecord {
                        wait: WaitReason::RepeatUntilPredicate {
                            predicate,
                            resume_at_tick: a.clock.saturating_add(1),
                        },
                        ..task
                    },
                    program,
                );
            } else {
                lemma_snapshot_ext(b1, b2);
            }
        },
        Op::TimeoutUntilTick(until_tick, program) => {
            if a.clock < until_tick && spawn_failure(a, programs, program) is None {
                lemma_with_child_determined(
                    a,
                    b1,
                    b2,
                    slot,
                    TaskRecord {
                        wait: WaitReason::Timeout { child: crate::runtime::next_id(a, 1), until_tick },
                        ..crate::runtime::next_op(task)
                    },
                    program,
                );
            } else {
                lemma_snapshot_ext(b1, b2);
            }
        },
        Op::TimeoutTicks(ticks, program) => {
            let until_tick = crate::runtime::deadline(a.clock, ticks);
            if a.clock < until_tick && spawn_failure(a, programs, program) is None {
                lemma_with_child_determined(
                    a,
                    b1,
                    b2,
                    slot,
                    TaskRecord {
                        wait: WaitReason::Timeout { child: crate::runtime::next_id(a, 1), until_tick },
                        ..crate::runtime::next_op(task)
                    },
                    program,
                );
            } else {
                lemma_snapshot_ext(b1, b2);
            }
        },
        Op::RaceChildrenUntilTick(left, right, until_tick) => {
            lemma_race_determined(a, b1, b2, programs, slot, task, left, right, until_tick, Some(until_tick), r1, r2);
        },
        Op::RaceChildrenOrTicks(left, right, ticks) => {
            let until_tick = crate::runtime::deadline(a.clock, ticks);
            lemma_race_determined(a, b1, b2, programs, slot, task, left, right, until_tick, Some(until_tick), r1, r2);
        },
        Op::Race2(left, right) => {
            lemma_race_determined(a, b1, b2, programs, slot, task, left, right, u64::MAX, None, r1, r2);
        },
        _ => {
            lemma_snapshot_ext(b1, b2);
        },
    }
}

/// A race op has one outcome.
pub proof fn lemma_race_determined<const N: usize, const S: usize>(
    a: RuntimeSnapshot<N, S>,
    b1: RuntimeSnapshot<N, S>,
    b2: RuntimeSnapshot<N, S>,
    programs: Seq<Program>,
    slot: int,
    task: TaskRecord,
    left: crate::ids::ProgramId,
    right: crate::ids::ProgramId,
    until_tick: u64,
    deadline: Option<u64>,
    r1: Result<bool, RuntimeError>,
    r2: Result<bool, RuntimeError>,
)
    requires
        deadline is None || (deadline == Some(until_tick) && a.clock < until_tick) || (deadline == Some(until_tick) && a.clock >= until_tick && crate::runtime::moved_on(a, b1, slot, task, r1) && crate::runtime::moved_on(a, b2, slot, task, r2)),
        deadline is None || a.clock < until_tick ==> crate::runtime::race_executed(a, b1, programs, slot, task, left, right, deadline, r1),
        deadline is None || a.clock < until_tick ==> crate::runtime::race_executed(a, b2, programs, slot, task, left, right, deadline, r2),
    ensures
        b1 == b2,
        r1 == r2,
{
    if deadline is Some && a.clock >= until_tick {
        lemma_snapshot_ext(b1, b2);
    } else {
        match crate::runtime::race_failure(a, programs, left, right) {
            None => {
                lemma_with_children_determined(
                    a,
                    b1,
                    b2,
                    slot,
                    TaskRecord { wait: crate::runtime::race_wait(a, deadline), ..crate::runtime::next_op(task) },
                    left,
                    right,
                );
            },
            Some(e) => {
                if e != RuntimeError::CapacityExceeded && find_program(programs, left) is Some {
                    lemma_with_child_determined(a, b1, b2, slot, crate::runtime::next_op(task), left);
                } else {
                    lemma_snapshot_ext(b1, b2);
                }
            },
        }
    }
}

/// A step that lets the task go on leaves it in its slot.
pub proof fn lemma_executed_keeps_slot<const N: usize, const S: usize>(
    op: Op,
    slot: int,
    task: TaskRecord,
    a: RuntimeSnapshot<N, S>,
    b: RuntimeSnapshot<N, S>,
    programs: Seq<Program>,
    answer: bool,
)
    requires
        0 <= slot < N,
        a.tasks@[slot] == Some(task),
        executed(op, slot, task, a, b, programs, Ok::<bool, RuntimeError>(true), answer),
    ensures
        b.tasks@[slot] is Some,
{
    if exists|k: int| #[trigger] is_first_free(a.tasks@, k) && b.tasks@ == a.tasks@.update(slot, Some(crate::runtime::next_op(task))).update(
        k,
        Some(crate::runtime::child_record(crate::runtime::next_op(task), crate::runtime::next_id(a, 1), op->Spawn_0)),
    ) {
        let k = choose|k: int| #[trigger] is_first_free(a.tasks@, k) && b.tasks@ == a.tasks@.update(slot, Some(crate::runtime::next_op(task))).update(
            k,
            Some(crate::runtime::child_record(crate::runtime::next_op(task), crate::runtime::next_id(a, 1), op->Spawn_0)),
        );
        assert(k != slot);
    }
}

/// Waking a task has one outcome.
pub proof fn lemma_woken_determined<const N: usize, const S: usize>(
    a: RuntimeSnapshot<N, S>,
    b1: RuntimeSnapshot<N, S>,
    b2: RuntimeSnapshot<N, S>,
    slot: int,
)
    requires
        a.wf(),
        0 <= slot < N,
        a.tasks@[slot] is Some,
        woken_state(a, b1, slot),
        woken_state(a, b2, slot),
    ensures
        b1 == b2,
{
    let task = a.tasks@[slot].unwrap();
    let woken = TaskRecord { wait: WaitReason::Ready, ..task };
    crate::cancellation::lemma_wf_ids_ordered(a);
    lemma_ids_ordered_update(a.tasks@, slot, woken);
    lemma_cancellation_determined(a.tasks@.update(slot, Some(woken)), b1.tasks@, b2.tasks@, wake_target(a, task));
    lemma_snapshot_ext(b1, b2);
}

/// A wake-up check has one outcome, given the host's answer.
pub proof fn lemma_wake_visit_determined<const N: usize, const S: usize>(
    a: RuntimeSnapshot<N, S>,
    b1: RuntimeSnapshot<N, S>,
    b2: RuntimeSnapshot<N, S>,
    slot: int,
    w1: Seq<bool>,
    w2: Seq<bool>,
    k1: bool,
    k2: bool,
)
    requires
        a.wf(),
        0 <= slot < N,
        wake_visit(a, b1, slot, w1, k1),
        wake_visit(a, b2, slot, w2, k2),
        agree(w1, w2),
    ensures
        w1 == w2,
        k1 == k2,
        b1 == b2,
{
    let t = a.tasks@[slot];
    if slot_running(t) && !(t.unwrap().wait is Ready) {
        if wait_over(a, t.unwrap()) is None {
            assert(w1[0] == w2[0]);
        }
        assert(w1 =~= w2);
        if k1 {
            lemma_woken_determined(a, b1, b2, slot);
        }
    } else {
        assert(w1 =~= w2);
    }
}

/// Two answer sequences that agree still agree with the same number of entries dropped.
pub proof fn lemma_agree_skip(s1: Seq<bool>, s2: Seq<bool>, k: int)
    requires
        agree(s1, s2),
        0 <= k <= s1.len(),
        k <= s2.len(),
    ensures
        agree(s1.skip(k), s2.skip(k)),
{
    assert forall|i: int| 0 <= i < s1.skip(k).len() && 0 <= i < s2.skip(k).len() implies s1.skip(k)[i]
        == s2.skip(k)[i] by {
        assert(s1[i + k] == s2[i + k]);
    }
}

/// Agreeing sequences of the same length are equal.
pub proof fn lemma_agree_same_len(s1: Seq<bool>, s2: Seq<bool>)
    requires
        agree(s1, s2),
        s1.len() == s2.len(),
    ensures
        s1 == s2,
{
    assert(s1 =~= s2);
}

/// The ops a ready task runs in one visit have one outcome, given the host's answers:
/// the same steps that let it go on, then the same last step, with the same effects.
#[verifier::rlimit(80)]
#[verifier::spinoff_prover]
pub proof fn lemma_run_determined<const N: usize, const S: usize>(
    a: RuntimeSnapshot<N, S>,
    programs: Seq<Program>,
    slot: int,
    m1: RuntimeSnapshot<N, S>,
    b1: RuntimeSnapshot<N, S>,
    s1: Seq<bool>,
    n1: nat,
    x1: Seq<Effect>,
    t1: Seq<bool>,
    y1: Seq<Effect>,
    r1: Result<(), RuntimeError>,
    m2: RuntimeSnapshot<N, S>,
    b2: RuntimeSnapshot<N, S>,
    s2: Seq<bool>,
    n2: nat,
    x2: Seq<Effect>,
    t2: Seq<bool>,
    y2: Seq<Effect>,
    r2: Result<(), RuntimeError>,
)
    requires
        a.wf(),
        0 <= slot < N,
        a.tasks@[slot] is Some,
        ran_on(a, m1, programs, slot, s1, n1, x1),
        run_ends(m1, b1, programs, slot, t1, y1, r1),
        ran_on(a, m2, programs, slot, s2, n2, x2),
        run_ends(m2, b2, programs, slot, t2, y2, r2),
        agree(s1 + t1, s2 + t2),
    ensures
        b1 == b2,
        s1 + t1 == s2 + t2,
        x1 + y1 == x2 + y2,
        r1 == r2,
    decreases n1,
{
    let task = a.tasks@[slot].unwrap();
    let op = current_op(programs, task);
    if n1 == 0 && n2 == 0 {
        assert(s1 + t1 =~= t1);
        assert(s2 + t2 =~= t2);
        assert(x1 + y1 =~= y1);
        assert(x2 + y2 =~= y2);
        if (task.ip as nat) >= op_len(programs, task.program_id) {
            lemma_finished_determined(a, b1, b2, slot, task, Outcome::Succeeded);
        } else {
            lemma_agree_same_len(t1, t2);
            let res1 = choose|res: Result<bool, RuntimeError>|
                #[trigger] executed(op, slot, task, a, b1, programs, res, t1[0]) && y1 == op_log(
                    op,
                    slot,
                    task,
                    a,
                    programs,
                    t1[0],
                    res,
                ) && match res {
                    Ok(go_on) => !go_on && r1 == Ok::<(), RuntimeError>(()),
                    Err(e) => r1 == Err::<(), RuntimeError>(e),
                };
            let res2 = choose|res: Result<bool, RuntimeError>|
                #[trigger] executed(op, slot, task, a, b2, programs, res, t2[0]) && y2 == op_log(
                    op,
                    slot,
                    task,
                    a,
                    programs,
                    t2[0],
                    res,
                ) && match res {
                    Ok(go_on) => !go_on && r2 == Ok::<(), RuntimeError>(()),
                    Err(e) => r2 == Err::<(), RuntimeError>(e),
                };
            lemma_executed_determined(op, slot, task, a, b1, b2, programs, res1, res2, t1[0]);
            if !asks_host(op) {
                lemma_op_log_ignores_answer(op, slot, task, a, programs, t1[0], t2[0], res1);
            }
        }
    } else if n1 == 0 || n2 == 0 {
        lemma_run_go_on_excludes_end(a, programs, slot, m1, b1, s1, n1, x1, t1, y1, r1, m2, b2, s2, n2, x2, t2, y2, r2);
    } else {
        let k = asked(op);
        let q = op_log(op, slot, task, a, programs, s1[0], Ok::<bool, RuntimeError>(true));
        let q2 = op_log(op, slot, task, a, programs, s2[0], Ok::<bool, RuntimeError>(true));
        let mid1 = choose|mid: RuntimeSnapshot<N, S>|
            #[trigger] executed(op, slot, task, a, mid, programs, Ok::<bool, RuntimeError>(true), s1[0])
                && mid.wf() && ran_on(mid, m1, programs, slot, s1.skip(k as int), (n1 - 1) as nat, x1.skip(q.len() as int));
        if asks_host(op) {
            assert((s1 + t1)[0] == (s2 + t2)[0]);
        } else {
            lemma_op_log_ignores_answer(op, slot, task, a, programs, s1[0], s2[0], Ok::<bool, RuntimeError>(true));
        }
        assert(q == q2);
        let mid2 = choose|mid: RuntimeSnapshot<N, S>|
            #[trigger] executed(op, slot, task, a, mid, programs, Ok::<bool, RuntimeError>(true), s2[0])
                && mid.wf() && ran_on(mid, m2, programs, slot, s2.skip(k as int), (n2 - 1) as nat, x2.skip(q.len() as int));
        if !asks_host(op) {
            lemma_executed_ignores_answer(op, slot, task, a, mid2, programs, Ok::<bool, RuntimeError>(true), s2[0], s1[0]);
        }
        lemma_executed_determined(op, slot, task, a, mid1, mid2, programs, Ok::<bool, RuntimeError>(true), Ok::<bool, RuntimeError>(true), s1[0]);
        lemma_executed_keeps_slot(op, slot, task, a, mid1, programs, s1[0]);
        assert((s1 + t1).skip(k as int) =~= s1.skip(k as int) + t1);
        assert((s2 + t2).skip(k as int) =~= s2.skip(k as int) + t2);
        lemma_agree_skip(s1 + t1, s2 + t2, k as int);
        lemma_run_determined(
            mid1,
            programs,
            slot,
            m1,
            b1,
            s1.skip(k as int),
            (n1 - 1) as nat,
            x1.skip(q.len() as int),
            t1,
            y1,
            r1,
            m2,
            b2,
            s2.skip(k as int),
            (n2 - 1) as nat,
            x2.skip(q.len() as int),
            t2,
            y2,
            r2,
        );
        if k == 1 {
            assert((s1 + t1)[0] == (s2 + t2)[0]);
        }
        assert(s1 + t1 =~= (s1 + t1).take(k as int) + (s1 + t1).skip(k as int));
        assert(s2 + t2 =~= (s2 + t2).take(k as int) + (s2 + t2).skip(k as int));
        assert((s1 + t1).take(k as int) =~= (s2 + t2).take(k as int));
        assert(x1 + y1 =~= x1.take(q.len() as int) + (x1.skip(q.len() as int) + y1));
        assert(x2 + y2 =~= x2.take(q.len() as int) + (x2.skip(q.len() as int) + y2));
    }
}

/// A step that lets the task go on and a last step from the same state do not both happen:
/// two runs from the same state both take steps that let the task go on, or neither does.
proof fn lemma_run_go_on_excludes_end<const N: usize, const S: usize>(
    a: RuntimeSnapshot<N, S>,
    programs: Seq<Program>,
    slot: int,
    m1: RuntimeSnapshot<N, S>,
    b1: RuntimeSnapshot<N, S>,
    s1: Seq<bool>,
    n1: nat,
    x1: Seq<Effect>,
    t1: Seq<bool>,
    y1: Seq<Effect>,
    r1: Result<(), RuntimeError>,
    m2: RuntimeSnapshot<N, S>,
    b2: RuntimeSnapshot<N, S>,
    s2: Seq<bool>,
    n2: nat,
    x2: Seq<Effect>,
    t2: Seq<bool>,
    y2: Seq<Effect>,
    r2: Result<(), RuntimeError>,
)
    requires
        a.wf(),
        0 <= slot < N,
        a.tasks@[slot] is Some,
        ran_on(a, m1, programs, slot, s1, n1, x1),
        run_ends(m1, b1, programs, slot, t1, y1, r1),
        ran_on(a, m2, programs, slot, s2, n2, x2),
        run_ends(m2, b2, programs, slot, t2, y2, r2),
        agree(s1 + t1, s2 + t2),
    ensures
        (n1 == 0) == (n2 == 0),
{
    let task = a.tasks@[slot].unwrap();
    let op = current_op(programs, task);
    if n1 == 0 && n2 > 0 {
        let q = op_log(op, slot, task, a, programs, s2[0], Ok::<bool, RuntimeError>(true));
        assert(s1 + t1 =~= t1);
        let mid = choose|mid: RuntimeSnapshot<N, S>|
            #[trigger] executed(op, slot, task, a, mid, programs, Ok::<bool, RuntimeError>(true), s2[0])
                && mid.wf() && ran_on(mid, m2, programs, slot, s2.skip(asked(op) as int), (n2 - 1) as nat, x2.skip(q.len() as int));
        let res = choose|res: Result<bool, RuntimeError>|
            #[trigger] executed(op, slot, task, a, b1, programs, res, t1[0]) && y1 == op_log(
                op,
                slot,
                task,
                a,
                programs,
                t1[0],
                res,
            ) && match res {
                Ok(go_on) => !go_on && r1 == Ok::<(), RuntimeError>(()),
                Err(e) => r1 == Err::<(), RuntimeError>(e),
            };
        if asks_host(op) {
            assert((s1 + t1)[0] == (s2 + t2)[0]);
        } else {
            lemma_executed_ignores_answer(op, slot, task, a, mid, programs, Ok::<bool, RuntimeError>(true), s2[0], t1[0]);
        }
        lemma_executed_determined(op, slot, task, a, b1, mid, programs, res, Ok::<bool, RuntimeError>(true), t1[0]);
    } else if n2 == 0 && n1 > 0 {
        let q = op_log(op, slot, task, a, programs, s1[0], Ok::<bool, RuntimeError>(true));
        assert(s2 + t2 =~= t2);
        let mid = choose|mid: RuntimeSnapshot<N, S>|
            #[trigger] executed(op, slot, task, a, mid, programs, Ok::<bool, RuntimeError>(true), s1[0])
                && mid.wf() && ran_on(mid, m1, programs, slot, s1.skip(asked(op) as int), (n1 - 1) as nat, x1.skip(q.len() as int));
        let res = choose|res: Result<bool, RuntimeError>|
            #[trigger] executed(op, slot, task, a, b2, programs, res, t2[0]) && y2 == op_log(
                op,
                slot,
                task,
                a,
                programs,
                t2[0],
                res,
            ) && match res {
                Ok(go_on) => !go_on && r2 == Ok::<(), RuntimeError>(()),
                Err(e) => r2 == Err::<(), RuntimeError>(e),
            };
        if asks_host(op) {
            assert((s1 + t1)[0] == (s2 + t2)[0]);
        } else {
            lemma_executed_ignores_answer(op, slot, task, a, mid, programs, Ok::<bool, RuntimeError>(true), s1[0], t2[0]);
        }
        lemma_executed_determined(op, slot, task, a, b2, mid, programs, res, Ok::<bool, RuntimeError>(true), t2[0]);
    }
}

/// The run part of a visit has one outcome, given the host's answers.
#[verifier::rlimit(80)]
#[verifier::spinoff_prover]
pub proof fn lemma_run_visit_determined<const N: usize, const S: usize>(
    a: RuntimeSnapshot<N, S>,
    b1: RuntimeSnapshot<N, S>,
    b2: RuntimeSnapshot<N, S>,
    programs: Seq<Program>,
    slot: int,
    s1: Seq<bool>,
    s2: Seq<bool>,
    x1: Seq<Effect>,
    x2: Seq<Effect>,
    ran1: bool,
    ran2: bool,
    r1: Result<(), RuntimeError>,
    r2: Result<(), RuntimeError>,
)
    requires
        a.wf(),
        0 <= slot < N,
        run_visit(a, b1, programs, slot, s1, x1, ran1, r1),
        run_visit(a, b2, programs, slot, s2, x2, ran2, r2),
        agree(s1, s2),
    ensures
        b1 == b2,
        s1 == s2,
        x1 == x2,
        ran1 == ran2,
        r1 == r2,
{
    let t = a.tasks@[slot];
    if slot_running(t) && t.unwrap().wait is Ready {
        assert(s1[0] == s2[0]);
        if !s1[0] || find_program(programs, t.unwrap().program_id) is None {
            lemma_agree_same_len(s1, s2);
            assert(x1 =~= x2);
        } else {
            let (m1, n1, a1, y1) = choose|m: RuntimeSnapshot<N, S>, n: nat, a1: Seq<bool>, q1: Seq<Effect>|
                #[trigger] ran_on(a, m, programs, slot, a1, n, q1) && a1.len() <= s1.len() - 1
                    && s1.skip(1).take(a1.len() as int) == a1 && q1.len() <= x1.len() - 1
                    && x1.skip(1).take(q1.len() as int) == q1 && run_ends(
                    m,
                    b1,
                    programs,
                    slot,
                    s1.skip(1 + a1.len() as int),
                    x1.skip(1 + q1.len() as int),
                    r1,
                );
            let (m2, n2, a2, y2) = choose|m: RuntimeSnapshot<N, S>, n: nat, a1: Seq<bool>, q1: Seq<Effect>|
                #[trigger] ran_on(a, m, programs, slot, a1, n, q1) && a1.len() <= s2.len() - 1
                    && s2.skip(1).take(a1.len() as int) == a1 && q1.len() <= x2.len() - 1
                    && x2.skip(1).take(q1.len() as int) == q1 && run_ends(
                    m,
                    b2,
                    programs,
                    slot,
                    s2.skip(1 + a1.len() as int),
                    x2.skip(1 + q1.len() as int),
                    r2,
                );
            let rest1 = s1.skip(1 + a1.len() as int);
            let rest2 = s2.skip(1 + a2.len() as int);
            let more1 = x1.skip(1 + y1.len() as int);
            let more2 = x2.skip(1 + y2.len() as int);
            assert(s1.skip(1) =~= a1 + rest1);
            assert(s2.skip(1) =~= a2 + rest2);
            assert(x1.skip(1) =~= y1 + more1);
            assert(x2.skip(1) =~= y2 + more2);
            lemma_agree_skip(s1, s2, 1);
            lemma_run_determined(
                a,
                programs,
                slot,
                m1,
                b1,
                a1,
                n1,
                y1,
                rest1,
                more1,
                r1,
                m2,
                b2,
                a2,
                n2,
                y2,
                rest2,
                more2,
                r2,
            );
            assert(s1 =~= s1.take(1) + s1.skip(1));
            assert(s2 =~= s2.take(1) + s2.skip(1));
            assert(s1.take(1) =~= s2.take(1));
            assert(x1 =~= x1.take(1) + x1.skip(1));
            assert(x2 =~= x2.take(1) + x2.skip(1));
            assert(x1.take(1) =~= x2.take(1));
        }
    } else {
        assert(x1 =~= x2);
    }
}

/// A visit has one outcome, given the host's answers.
#[verifier::spinoff_prover]
pub proof fn lemma_visit_determined<const N: usize, const S: usize>(
    a: RuntimeSnapshot<N, S>,
    b1: RuntimeSnapshot<N, S>,
    b2: RuntimeSnapshot<N, S>,
    programs: Seq<Program>,
    slot: int,
    s1: Seq<bool>,
    s2: Seq<bool>,
    x1: Seq<Effect>,
    x2: Seq<Effect>,
    r1: Result<(), RuntimeError>,
    r2: Result<(), RuntimeError>,
)
    requires
        a.wf(),
        0 <= slot < N,
        visit(a, b1, programs, slot, s1, x1, r1),
        visit(a, b2, programs, slot, s2, x2, r2),
        agree(s1, s2),
    ensures
        b1 == b2,
        s1 == s2,
        x1 == x2,
        r1 == r2,
        b1.wf(),
{
    reveal(visit);
    let (m1, k1) = choose|m: RuntimeSnapshot<N, S>, woke: bool|
        #[trigger] wake_visit(a, m, slot, wake_answers(a, slot, woke), woke) && wake_answers(a, slot, woke).len()
            <= s1.len() && s1.take(wake_answers(a, slot, woke).len() as int) == wake_answers(a, slot, woke)
            && wake_log(a, slot, woke).len() <= x1.len() && x1.take(wake_log(a, slot, woke).len() as int) == wake_log(a, slot, woke) && exists|ran: bool|
            #[trigger] run_visit(m, b1, programs, slot, s1.skip(wake_answers(a, slot, woke).len() as int), x1.skip(wake_log(a, slot, woke).len() as int), ran, r1);
    let (m2, k2) = choose|m: RuntimeSnapshot<N, S>, woke: bool|
        #[trigger] wake_visit(a, m, slot, wake_answers(a, slot, woke), woke) && wake_answers(a, slot, woke).len()
            <= s2.len() && s2.take(wake_answers(a, slot, woke).len() as int) == wake_answers(a, slot, woke)
            && wake_log(a, slot, woke).len() <= x2.len() && x2.take(wake_log(a, slot, woke).len() as int) == wake_log(a, slot, woke) && exists|ran: bool|
            #[trigger] run_visit(m, b2, programs, slot, s2.skip(wake_answers(a, slot, woke).len() as int), x2.skip(wake_log(a, slot, woke).len() as int), ran, r2);
    let wr = wake_log(a, slot, k1);
    let w1 = wake_answers(a, slot, k1);
    let w2 = wake_answers(a, slot, k2);
    assert(agree(w1, w2)) by {
        assert forall|i: int| 0 <= i < w1.len() && 0 <= i < w2.len() implies w1[i] == w2[i] by {
            assert(s1.take(w1.len() as int)[i] == s1[i]);
            assert(s2.take(w2.len() as int)[i] == s2[i]);
        }
    }
    lemma_wake_visit_determined(a, m1, m2, slot, w1, w2, k1, k2);
    let ran1 = choose|ran: bool| #[trigger] run_visit(m1, b1, programs, slot, s1.skip(w1.len() as int), x1.skip(wr.len() as int), ran, r1);
    let ran2 = choose|ran: bool| #[trigger] run_visit(m2, b2, programs, slot, s2.skip(w2.len() as int), x2.skip(wr.len() as int), ran, r2);
    lemma_visit_wake_wf(a, m1, slot, w1, k1);
    lemma_agree_skip(s1, s2, w1.len() as int);
    lemma_run_visit_determined(
        m1,
        b1,
        b2,
        programs,
        slot,
        s1.skip(w1.len() as int),
        s2.skip(w1.len() as int),
        x1.skip(wr.len() as int),
        x2.skip(wr.len() as int),
        ran1,
        ran2,
        r1,
        r2,
    );
    assert(s1 =~= s1.take(w1.len() as int) + s1.skip(w1.len() as int));
    assert(s2 =~= s2.take(w1.len() as int) + s2.skip(w1.len() as int));
    assert(x1 =~= x1.take(wr.len() as int) + x1.skip(wr.len() as int));
    assert(x2 =~= x2.take(wr.len() as int) + x2.skip(wr.len() as int));
    lemma_run_visit_wf(m1, b1, programs, slot, s1.skip(w1.len() as int), x1.skip(wr.len() as int), ran1, r1);
}

/// A wake-up check keeps the state well formed.
pub proof fn lemma_visit_wake_wf<const N: usize, const S: usize>(
    a: RuntimeSnapshot<N, S>,
    b: RuntimeSnapshot<N, S>,
    slot: int,
    w: Seq<bool>,
    woke: bool,
)
    requires
        a.wf(),
        wake_visit(a, b, slot, w, woke),
    ensures
        b.wf(),
{
}

/// The run part of a visit keeps the state well formed.
pub proof fn lemma_run_visit_wf<const N: usize, const S: usize>(
    a: RuntimeSnapshot<N, S>,
    b: RuntimeSnapshot<N, S>,
    programs: Seq<Program>,
    slot: int,
    s: Seq<bool>,
    x: Seq<Effect>,
    ran: bool,
    r: Result<(), RuntimeError>,
)
    requires
        a.wf(),
        run_visit(a, b, programs, slot, s, x, ran, r),
    ensures
        b.wf(),
{
}

/// Prefixes of agreeing sequences agree.
pub proof fn lemma_agree_take(s1: Seq<bool>, s2: Seq<bool>, j1: int, j2: int)
    requires
        agree(s1, s2),
        0 <= j1 <= s1.len(),
        0 <= j2 <= s2.len(),
    ensures
        agree(s1.take(j1), s2.take(j2)),
{
    assert forall|i: int| 0 <= i < s1.take(j1).len() && 0 <= i < s2.take(j2).len() implies s1.take(j1)[i]
        == s2.take(j2)[i] by {
        assert(s1[i] == s2[i]);
    }
}

/// Every slot an order lists is a slot of the runtime.
pub open spec fn slots_in_range(order: Seq<Option<usize>>, n: nat) -> bool {
    forall|k: int| 0 <= k < order.len() && #[trigger] order[k] is Some ==> order[k].unwrap() < n
}

/// The first positions of a round have one outcome, given the host's answers.
pub proof fn lemma_round_determined<const N: usize, const S: usize>(
    a: RuntimeSnapshot<N, S>,
    b1: RuntimeSnapshot<N, S>,
    b2: RuntimeSnapshot<N, S>,
    programs: Seq<Program>,
    order: Seq<Option<usize>>,
    c: nat,
    s1: Seq<bool>,
    s2: Seq<bool>,
    x1: Seq<Effect>,
    x2: Seq<Effect>,
)
    requires
        a.wf(),
        slots_in_range(order, N as nat),
        c <= order.len(),
        round_upto(a, b1, programs, order, c, s1, x1),
        round_upto(a, b2, programs, order, c, s2, x2),
        agree(s1, s2),
    ensures
        b1 == b2,
        s1 == s2,
        x1 == x2,
        b1.wf(),
    decreases c,
{
    if c == 0 {
        assert(s1 =~= s2);
        assert(x1 =~= x2);
    } else if order[c - 1] is None {
        lemma_round_determined(a, b1, b2, programs, order, (c - 1) as nat, s1, s2, x1, x2);
    } else {
        let (m1, j1, i1, q1, slot1) = choose|m: RuntimeSnapshot<N, S>, j: nat, i: nat, r2: Result<(), RuntimeError>, slot: usize|
            #[trigger] visit(m, b1, programs, slot as int, s1.skip(j as int), x1.skip(i as int), r2)
                && order[c - 1] == Some(slot) && r2 is Ok && j <= s1.len() && i <= x1.len()
                && round_upto(a, m, programs, order, (c - 1) as nat, s1.take(j as int), x1.take(i as int));
        let (m2, j2, i2, q2, slot2) = choose|m: RuntimeSnapshot<N, S>, j: nat, i: nat, r2: Result<(), RuntimeError>, slot: usize|
            #[trigger] visit(m, b2, programs, slot as int, s2.skip(j as int), x2.skip(i as int), r2)
                && order[c - 1] == Some(slot) && r2 is Ok && j <= s2.len() && i <= x2.len()
                && round_upto(a, m, programs, order, (c - 1) as nat, s2.take(j as int), x2.take(i as int));
        lemma_agree_take(s1, s2, j1 as int, j2 as int);
        lemma_round_determined(a, m1, m2, programs, order, (c - 1) as nat, s1.take(j1 as int), s2.take(j2 as int), x1.take(i1 as int), x2.take(i2 as int));
        assert(j1 == j2);
        assert(order[c - 1] is Some);
        assert(slot1 < N);
        lemma_agree_skip(s1, s2, j1 as int);
        lemma_visit_determined(
            m1,
            b1,
            b2,
            programs,
            slot1 as int,
            s1.skip(j1 as int),
            s2.skip(j1 as int),
            x1.skip(i1 as int),
            x2.skip(i2 as int),
            q1,
            q2,
        );
        assert(s1 =~= s1.take(j1 as int) + s1.skip(j1 as int));
        assert(s2 =~= s2.take(j1 as int) + s2.skip(j1 as int));
        assert(x1 =~= x1.take(i1 as int) + x1.skip(i1 as int));
        assert(x2 =~= x2.take(i2 as int) + x2.skip(i2 as int));
    }
}

/// A round's order is fixed by the task slots: the occupied slots by increasing task id.
pub proof fn lemma_run_order_unique(tasks: Seq<Option<TaskRecord>>, o1: Seq<Option<usize>>, o2: Seq<Option<usize>>)
    requires
        ids_ordered(tasks),
        crate::runtime::run_order(tasks, o1),
        crate::runtime::run_order(tasks, o2),
    ensures
        o1 == o2,
{
    lemma_run_order_agree_upto(tasks, o1, o2, o1.len());
    assert(o1 =~= o2);
}

proof fn lemma_run_order_agree_upto(
    tasks: Seq<Option<TaskRecord>>,
    o1: Seq<Option<usize>>,
    o2: Seq<Option<usize>>,
    k: nat,
)
    requires
        ids_ordered(tasks),
        crate::runtime::run_order(tasks, o1),
        crate::runtime::run_order(tasks, o2),
        k <= o1.len(),
    ensures
        forall|i: int| 0 <= i < k ==> #[trigger] o1[i] == o2[i],
    decreases k,
{
    if k > 0 {
        let p = (k - 1) as int;
        lemma_run_order_agree_upto(tasks, o1, o2, (k - 1) as nat);
        lemma_run_order_step(tasks, o1, o2, p);
        lemma_run_order_step(tasks, o2, o1, p);
        if o1[p] is Some && o2[p] is Some {
            let s = o1[p].unwrap();
            let s2 = o2[p].unwrap();
            assert(tasks[s as int] is Some);
            assert(tasks[s2 as int] is Some);
            if s != s2 {
                assert(tasks[s as int].unwrap().id != tasks[s2 as int].unwrap().id);
            }
        }
    }
}

/// With the first `p` positions alike, what `o1` lists at `p` sits at `p` or later in `o2`,
/// and `o2` lists a slot at `p` whose task's id is at most that one's.
proof fn lemma_run_order_step(
    tasks: Seq<Option<TaskRecord>>,
    o1: Seq<Option<usize>>,
    o2: Seq<Option<usize>>,
    p: int,
)
    requires
        ids_ordered(tasks),
        crate::runtime::run_order(tasks, o1),
        crate::runtime::run_order(tasks, o2),
        0 <= p < o1.len(),
        forall|i: int| 0 <= i < p ==> #[trigger] o1[i] == o2[i],
    ensures
        o1[p] is Some ==> o2[p] is Some && crate::runtime::slot_id(tasks, o2[p]) <= crate::runtime::slot_id(
            tasks,
            o1[p],
        ),
{
    if o1[p] is Some {
        let s = o1[p].unwrap();
        assert(tasks[s as int] is Some);
        let q = choose|q: int| 0 <= q < o2.len() && o2[q] == Some(s as usize);
        if q < p {
            assert(o1[q] == o2[q]);
            assert(crate::runtime::slot_id(tasks, o1[q]) < crate::runtime::slot_id(tasks, o1[p]));
        }
        let n2 = choose|n: int| #[trigger] crate::runtime::filled_prefix(o2, n);
        assert(o2[q] is Some);
        if q >= n2 {
            assert(o2[q] is None);
        }
        assert(o2[p] is Some);
        if q > p {
            assert(crate::runtime::slot_id(tasks, o2[p]) < crate::runtime::slot_id(tasks, o2[q]));
        }
    }
}

/// A round whose first `n` positions were visited also had its first `c <= n` visited.
pub proof fn lemma_round_prefix<const N: usize, const S: usize>(
    a: RuntimeSnapshot<N, S>,
    b: RuntimeSnapshot<N, S>,
    programs: Seq<Program>,
    order: Seq<Option<usize>>,
    n: nat,
    s: Seq<bool>,
    x: Seq<Effect>,
    c: nat,
) -> (prefix: (RuntimeSnapshot<N, S>, nat, nat))
    requires
        round_upto(a, b, programs, order, n, s, x),
        c <= n,
    ensures
        round_upto(a, prefix.0, programs, order, c, s.take(prefix.1 as int), x.take(prefix.2 as int)),
        prefix.1 <= s.len(),
        prefix.2 <= x.len(),
    decreases n,
{
    if c == n {
        assert(s.take(s.len() as int) =~= s);
        assert(x.take(x.len() as int) =~= x);
        (b, s.len(), x.len())
    } else if order[n - 1] is None {
        lemma_round_prefix(a, b, programs, order, (n - 1) as nat, s, x, c)
    } else {
        let (m, j, i, r2, slot) = choose|m: RuntimeSnapshot<N, S>, j: nat, i: nat, r2: Result<(), RuntimeError>, slot: usize|
            #[trigger] visit(m, b, programs, slot as int, s.skip(j as int), x.skip(i as int), r2)
                && order[n - 1] == Some(slot) && r2 is Ok && j <= s.len() && i <= x.len()
                && round_upto(a, m, programs, order, (n - 1) as nat, s.take(j as int), x.take(i as int));
        let p = lemma_round_prefix(a, m, programs, order, (n - 1) as nat, s.take(j as int), x.take(i as int), c);
        assert(s.take(j as int).take(p.1 as int) =~= s.take(p.1 as int));
        assert(x.take(i as int).take(p.2 as int) =~= x.take(p.2 as int));
        p
    }
}

/// How a round ends: it visits every position of `order` (`Ok`), or a visit fails.
pub open spec fn round_done<const N: usize, const S: usize>(
    a: RuntimeSnapshot<N, S>,
    b: RuntimeSnapshot<N, S>,
    programs: Seq<Program>,
    order: Seq<Option<usize>>,
    s: Seq<bool>,
    x: Seq<Effect>,
    r: Result<(), RuntimeError>,
) -> bool {
    match r {
        Ok(_) => r == Ok::<(), RuntimeError>(()) && round_upto(a, b, programs, order, order.len(), s, x),
        Err(e) => round_failed(a, b, programs, order, s, x, e),
    }
}

/// The visit at position `c` of a round whose first `c + 1` positions were visited
/// succeeded, from the state the first `c` positions led to.
proof fn lemma_round_visit_at<const N: usize, const S: usize>(
    a: RuntimeSnapshot<N, S>,
    b: RuntimeSnapshot<N, S>,
    programs: Seq<Program>,
    order: Seq<Option<usize>>,
    c: nat,
    s: Seq<bool>,
    x: Seq<Effect>,
) -> (at: (RuntimeSnapshot<N, S>, nat, nat, Result<(), RuntimeError>))
    requires
        round_upto(a, b, programs, order, c + 1, s, x),
        order[c as int] is Some,
    ensures
        round_upto(a, at.0, programs, order, c, s.take(at.1 as int), x.take(at.2 as int)),
        at.1 <= s.len(),
        at.2 <= x.len(),
        visit(at.0, b, programs, order[c as int].unwrap() as int, s.skip(at.1 as int), x.skip(at.2 as int), at.3),
        at.3 is Ok,
{
    assert(((c + 1) - 1) as nat == c);
    let (m, j, i, r2, slot) = choose|m: RuntimeSnapshot<N, S>, j: nat, i: nat, r2: Result<(), RuntimeError>, slot: usize|
        #[trigger] visit(m, b, programs, slot as int, s.skip(j as int), x.skip(i as int), r2)
            && order[(c + 1) - 1] == Some(slot) && r2 is Ok && j <= s.len() && i <= x.len()
            && round_upto(a, m, programs, order, ((c + 1) - 1) as nat, s.take(j as int), x.take(i as int));
    (m, j, i, r2)
}

/// A round has one ending, given the host's answers.
pub proof fn lemma_round_done_determined<const N: usize, const S: usize>(
    a: RuntimeSnapshot<N, S>,
    b1: RuntimeSnapshot<N, S>,
    b2: RuntimeSnapshot<N, S>,
    programs: Seq<Program>,
    order: Seq<Option<usize>>,
    s1: Seq<bool>,
    s2: Seq<bool>,
    x1: Seq<Effect>,
    x2: Seq<Effect>,
    r1: Result<(), RuntimeError>,
    r2: Result<(), RuntimeError>,
)
    requires
        a.wf(),
        slots_in_range(order, N as nat),
        round_done(a, b1, programs, order, s1, x1, r1),
        round_done(a, b2, programs, order, s2, x2, r2),
        agree(s1, s2),
    ensures
        b1 == b2,
        r1 == r2,
        s1 == s2,
        x1 == x2,
{
    match (r1, r2) {
        (Ok(_), Ok(_)) => {
            lemma_round_determined(a, b1, b2, programs, order, order.len(), s1, s2, x1, x2);
        },
        (Err(e1), Ok(_)) => {
            lemma_failed_vs_done(a, b1, b2, programs, order, s1, s2, x1, x2, e1);
        },
        (Ok(_), Err(e2)) => {
            lemma_failed_vs_done(a, b2, b1, programs, order, s2, s1, x2, x1, e2);
        },
        (Err(e1), Err(e2)) => {
            lemma_failed_vs_failed(a, b1, b2, programs, order, s1, s2, x1, x2, e1, e2);
        },
    }
}

/// A round that fails does not also visit every position, given the host's answers.
proof fn lemma_failed_vs_done<const N: usize, const S: usize>(
    a: RuntimeSnapshot<N, S>,
    b1: RuntimeSnapshot<N, S>,
    b2: RuntimeSnapshot<N, S>,
    programs: Seq<Program>,
    order: Seq<Option<usize>>,
    s1: Seq<bool>,
    s2: Seq<bool>,
    x1: Seq<Effect>,
    x2: Seq<Effect>,
    e1: RuntimeError,
)
    requires
        a.wf(),
        slots_in_range(order, N as nat),
        round_failed(a, b1, programs, order, s1, x1, e1),
        round_upto(a, b2, programs, order, order.len(), s2, x2),
        agree(s1, s2),
    ensures
        b1 == b2 && s1 == s2 && x1 == x2 && Err::<(), RuntimeError>(e1) == Ok::<(), RuntimeError>(()),
{
    let (c, m, j, i) = choose|c: nat, m: RuntimeSnapshot<N, S>, j: nat, i: nat|
        #[trigger] round_upto(a, m, programs, order, c, s1.take(j as int), x1.take(i as int)) && c < order.len()
            && j <= s1.len() && i <= x1.len() && order[c as int] is Some && visit(
            m,
            b1,
            programs,
            order[c as int].unwrap() as int,
            s1.skip(j as int),
            x1.skip(i as int),
            Err(e1),
        );
    let p = lemma_round_prefix(a, b2, programs, order, order.len(), s2, x2, c + 1);
    let at = lemma_round_visit_at(a, p.0, programs, order, c, s2.take(p.1 as int), x2.take(p.2 as int));
    let t2 = s2.take(p.1 as int);
    let u2 = x2.take(p.2 as int);
    lemma_agree_take(s1, s2, j as int, at.1 as int);
    assert(s2.take(p.1 as int).take(at.1 as int) =~= s2.take(at.1 as int));
    assert(x2.take(p.2 as int).take(at.2 as int) =~= x2.take(at.2 as int));
    lemma_round_determined(a, m, at.0, programs, order, c, s1.take(j as int), s2.take(at.1 as int), x1.take(i as int), x2.take(at.2 as int));
    assert(j == at.1);
    assert(order[c as int].unwrap() < N);
    assert(t2.skip(j as int) =~= s2.subrange(j as int, p.1 as int));
    lemma_agree_skip(s1, s2, j as int);
    lemma_agree_take(s1.skip(j as int), s2.skip(j as int), s1.skip(j as int).len() as int, (p.1 - j) as int);
    assert(s2.skip(j as int).take((p.1 - j) as int) =~= t2.skip(j as int));
    assert(s1.skip(j as int).take(s1.skip(j as int).len() as int) =~= s1.skip(j as int));
    lemma_visit_determined(
        m,
        b1,
        p.0,
        programs,
        order[c as int].unwrap() as int,
        s1.skip(j as int),
        t2.skip(j as int),
        x1.skip(i as int),
        u2.skip(at.2 as int),
        Err(e1),
        at.3,
    );
}

/// Two failing rounds fail at the same visit, given the host's answers.
proof fn lemma_failed_vs_failed<const N: usize, const S: usize>(
    a: RuntimeSnapshot<N, S>,
    b1: RuntimeSnapshot<N, S>,
    b2: RuntimeSnapshot<N, S>,
    programs: Seq<Program>,
    order: Seq<Option<usize>>,
    s1: Seq<bool>,
    s2: Seq<bool>,
    x1: Seq<Effect>,
    x2: Seq<Effect>,
    e1: RuntimeError,
    e2: RuntimeError,
)
    requires
        a.wf(),
        slots_in_range(order, N as nat),
        round_failed(a, b1, programs, order, s1, x1, e1),
        round_failed(a, b2, programs, order, s2, x2, e2),
        agree(s1, s2),
    ensures
        b1 == b2,
        e1 == e2,
        s1 == s2,
        x1 == x2,
{
    let (c1, m1, j1, i1) = choose|c: nat, m: RuntimeSnapshot<N, S>, j: nat, i: nat|
        #[trigger] round_upto(a, m, programs, order, c, s1.take(j as int), x1.take(i as int)) && c < order.len()
            && j <= s1.len() && i <= x1.len() && order[c as int] is Some && visit(
            m,
            b1,
            programs,
            order[c as int].unwrap() as int,
            s1.skip(j as int),
            x1.skip(i as int),
            Err(e1),
        );
    let (c2, m2, j2, i2) = choose|c: nat, m: RuntimeSnapshot<N, S>, j: nat, i: nat|
        #[trigger] round_upto(a, m, programs, order, c, s2.take(j as int), x2.take(i as int)) && c < order.len()
            && j <= s2.len() && i <= x2.len() && order[c as int] is Some && visit(
            m,
            b2,
            programs,
            order[c as int].unwrap() as int,
            s2.skip(j as int),
            x2.skip(i as int),
            Err(e2),
        );
    if c1 == c2 {
        lemma_agree_take(s1, s2, j1 as int, j2 as int);
        lemma_round_determined(a, m1, m2, programs, order, c1, s1.take(j1 as int), s2.take(j2 as int), x1.take(i1 as int), x2.take(i2 as int));
        assert(j1 == j2);
        assert(order[c1 as int].unwrap() < N);
        lemma_agree_skip(s1, s2, j1 as int);
        lemma_visit_determined(m1, b1, b2, programs, order[c1 as int].unwrap() as int, s1.skip(j1 as int), s2.skip(j1 as int), x1.skip(i1 as int), x2.skip(i2 as int), Err(e1), Err(e2));
        assert(s1 =~= s1.take(j1 as int) + s1.skip(j1 as int));
        assert(s2 =~= s2.take(j1 as int) + s2.skip(j1 as int));
        assert(x1 =~= x1.take(i1 as int) + x1.skip(i1 as int));
        assert(x2 =~= x2.take(i2 as int) + x2.skip(i2 as int));
    } else if c1 < c2 {
        lemma_failed_before(a, b1, m2, programs, order, s1, x1, s2.take(j2 as int), c2, x2.take(i2 as int), e1, c1, m1, j1, i1);
    } else {
        lemma_failed_before(a, b2, m1, programs, order, s2, x2, s1.take(j1 as int), c1, x1.take(i1 as int), e2, c2, m2, j2, i2);
    }
}

/// A round that fails at position `c1` has not visited past it, given the host's answers.
proof fn lemma_failed_before<const N: usize, const S: usize>(
    a: RuntimeSnapshot<N, S>,
    b1: RuntimeSnapshot<N, S>,
    m2: RuntimeSnapshot<N, S>,
    programs: Seq<Program>,
    order: Seq<Option<usize>>,
    s1: Seq<bool>,
    q1: Seq<Effect>,
    t2: Seq<bool>,
    c2: nat,
    x2: Seq<Effect>,
    e1: RuntimeError,
    c1: nat,
    m1: RuntimeSnapshot<N, S>,
    j1: nat,
    i1: nat,
)
    requires
        a.wf(),
        slots_in_range(order, N as nat),
        round_upto(a, m1, programs, order, c1, s1.take(j1 as int), q1.take(i1 as int)),
        c1 < c2,
        c2 <= order.len(),
        j1 <= s1.len(),
        i1 <= q1.len(),
        order[c1 as int] is Some,
        visit(m1, b1, programs, order[c1 as int].unwrap() as int, s1.skip(j1 as int), q1.skip(i1 as int), Err(e1)),
        round_upto(a, m2, programs, order, c2, t2, x2),
        agree(s1, t2),
    ensures
        Err::<(), RuntimeError>(e1) == Ok::<(), RuntimeError>(()),
{
    let p = lemma_round_prefix(a, m2, programs, order, c2, t2, x2, c1 + 1);
    let at = lemma_round_visit_at(a, p.0, programs, order, c1, t2.take(p.1 as int), x2.take(p.2 as int));
    let u = t2.take(p.1 as int);
    let w = x2.take(p.2 as int);
    assert(u.take(at.1 as int) =~= t2.take(at.1 as int));
    assert(w.take(at.2 as int) =~= x2.take(at.2 as int));
    lemma_agree_take(s1, t2, j1 as int, at.1 as int);
    lemma_round_determined(a, m1, at.0, programs, order, c1, s1.take(j1 as int), t2.take(at.1 as int), q1.take(i1 as int), x2.take(at.2 as int));
    assert(j1 == at.1);
    assert(order[c1 as int].unwrap() < N);
    lemma_agree_skip(s1, t2, j1 as int);
    lemma_agree_take(s1.skip(j1 as int), t2.skip(j1 as int), s1.skip(j1 as int).len() as int, (p.1 - j1) as int);
    assert(t2.skip(j1 as int).take((p.1 - j1) as int) =~= u.skip(j1 as int));
    assert(s1.skip(j1 as int).take(s1.skip(j1 as int).len() as int) =~= s1.skip(j1 as int));
    lemma_visit_determined(
        m1,
        b1,
        p.0,
        programs,
        order[c1 as int].unwrap() as int,
        s1.skip(j1 as int),
        u.skip(j1 as int),
        q1.skip(i1 as int),
        w.skip(at.2 as int),
        Err(e1),
        at.3,
    );
}

/// Busy rounds start with a first busy round.
pub proof fn lemma_busy_rounds_first<const N: usize, const S: usize>(
    a: RuntimeSnapshot<N, S>,
    b: RuntimeSnapshot<N, S>,
    programs: Seq<Program>,
    k: nat,
    s: Seq<bool>,
    x: Seq<Effect>,
) -> (first: (RuntimeSnapshot<N, S>, nat, nat, Seq<Option<usize>>))
    requires
        k > 0,
        busy_rounds(a, b, programs, k, s, x),
    ensures
        crate::runtime::run_order(a.tasks@, first.3),
        round_upto(a, first.0, programs, first.3, N as nat, s.take(first.1 as int), x.take(first.2 as int)),
        first.0 != a,
        first.1 <= s.len(),
        first.2 <= x.len(),
        busy_rounds(first.0, b, programs, (k - 1) as nat, s.skip(first.1 as int), x.skip(first.2 as int)),
    decreases k,
{
    let (m, j, i, order) = choose|m: RuntimeSnapshot<N, S>, j: nat, i: nat, order: Seq<Option<usize>>|
        #[trigger] round_upto(m, b, programs, order, N as nat, s.skip(j as int), x.skip(i as int))
            && crate::runtime::run_order(m.tasks@, order) && b != m && j <= s.len() && i <= x.len()
            && busy_rounds(a, m, programs, (k - 1) as nat, s.take(j as int), x.take(i as int));
    if k == 1 {
        assert(m == a);
        assert(s.take(j as int).len() == 0);
        assert(j == 0);
        assert(i == 0);
        assert(s.skip(0) =~= s);
        assert(x.skip(0) =~= x);
        assert(s.take(s.len() as int) =~= s);
        assert(x.take(x.len() as int) =~= x);
        assert(s.skip(s.len() as int) =~= Seq::<bool>::empty());
        assert(x.skip(x.len() as int) =~= Seq::<Effect>::empty());
        assert(busy_rounds(b, b, programs, 0, s.skip(s.len() as int), x.skip(x.len() as int)));
        (b, s.len(), x.len(), order)
    } else {
        let f = lemma_busy_rounds_first(a, m, programs, (k - 1) as nat, s.take(j as int), x.take(i as int));
        let rest = s.take(j as int).skip(f.1 as int);
        let restq = x.take(i as int).skip(f.2 as int);
        lemma_busy_rounds_extend(
            f.0,
            m,
            b,
            programs,
            (k - 2) as nat,
            rest,
            restq,
            order,
            s.skip(j as int),
            x.skip(i as int),
        );
        assert(rest + s.skip(j as int) =~= s.skip(f.1 as int));
        assert(restq + x.skip(i as int) =~= x.skip(f.2 as int));
        assert(s.take(j as int).take(f.1 as int) =~= s.take(f.1 as int));
        assert(x.take(i as int).take(f.2 as int) =~= x.take(f.2 as int));
        assert(((k - 2) + 1) as nat == (k - 1) as nat);
        (f.0, f.1, f.2, f.3)
    }
}

/// What is left of a tick from `a`: `k` busy rounds, then a last round that changes
/// nothing (`Ok`) or fails.
pub open spec fn tick_rest<const N: usize, const S: usize>(
    a: RuntimeSnapshot<N, S>,
    b: RuntimeSnapshot<N, S>,
    programs: Seq<Program>,
    k: nat,
    s: Seq<bool>,
    x: Seq<Effect>,
    r: Result<(), RuntimeError>,
) -> bool {
    exists|m: RuntimeSnapshot<N, S>, j: nat, i: nat|
        #[trigger] busy_rounds(a, m, programs, k, s.take(j as int), x.take(i as int)) && j <= s.len() && i
            <= x.len() && exists|order: Seq<Option<usize>>|
            #[trigger] crate::runtime::run_order(m.tasks@, order) && round_done(
                m,
                b,
                programs,
                order,
                s.skip(j as int),
                x.skip(i as int),
                r,
            ) && (r is Ok ==> b == m)
}

/// The parts of a tick's rest: its busy rounds, and its last round's order and ending.
proof fn lemma_tick_rest_parts<const N: usize, const S: usize>(
    a: RuntimeSnapshot<N, S>,
    b: RuntimeSnapshot<N, S>,
    programs: Seq<Program>,
    k: nat,
    s: Seq<bool>,
    x: Seq<Effect>,
    r: Result<(), RuntimeError>,
) -> (parts: (RuntimeSnapshot<N, S>, nat, nat, Seq<Option<usize>>))
    requires
        tick_rest(a, b, programs, k, s, x, r),
    ensures
        busy_rounds(a, parts.0, programs, k, s.take(parts.1 as int), x.take(parts.2 as int)),
        parts.1 <= s.len(),
        parts.2 <= x.len(),
        crate::runtime::run_order(parts.0.tasks@, parts.3),
        round_done(parts.0, b, programs, parts.3, s.skip(parts.1 as int), x.skip(parts.2 as int), r),
        r is Ok ==> b == parts.0,
{
    let (m, j, i) = choose|m: RuntimeSnapshot<N, S>, j: nat, i: nat|
        #[trigger] busy_rounds(a, m, programs, k, s.take(j as int), x.take(i as int)) && j <= s.len() && i
            <= x.len() && exists|order: Seq<Option<usize>>|
            #[trigger] crate::runtime::run_order(m.tasks@, order) && round_done(m, b, programs, order, s.skip(j as int), x.skip(i as int), r)
                && (r is Ok ==> b == m);
    let o = choose|order: Seq<Option<usize>>|
        #[trigger] crate::runtime::run_order(m.tasks@, order) && round_done(m, b, programs, order, s.skip(j as int), x.skip(i as int), r)
            && (r is Ok ==> b == m);
    (m, j, i, o)
}

/// The rest of a tick has one outcome, given the host's answers.
#[verifier::rlimit(40)]
#[verifier::spinoff_prover]
pub proof fn lemma_tick_rest_determined<const N: usize, const S: usize>(
    a: RuntimeSnapshot<N, S>,
    b1: RuntimeSnapshot<N, S>,
    b2: RuntimeSnapshot<N, S>,
    programs: Seq<Program>,
    k1: nat,
    k2: nat,
    s1: Seq<bool>,
    s2: Seq<bool>,
    x1: Seq<Effect>,
    x2: Seq<Effect>,
    r1: Result<(), RuntimeError>,
    r2: Result<(), RuntimeError>,
)
    requires
        a.wf(),
        tick_rest(a, b1, programs, k1, s1, x1, r1),
        tick_rest(a, b2, programs, k2, s2, x2, r2),
        agree(s1, s2),
    ensures
        b1 == b2,
        r1 == r2,
        s1 == s2,
        k1 == k2,
        x1 == x2,
    decreases k1,
{
    crate::cancellation::lemma_wf_ids_ordered(a);
    let p1 = lemma_tick_rest_parts(a, b1, programs, k1, s1, x1, r1);
    let p2 = lemma_tick_rest_parts(a, b2, programs, k2, s2, x2, r2);
    if k1 > 0 && k2 > 0 {
        let f1 = lemma_busy_rounds_first(a, p1.0, programs, k1, s1.take(p1.1 as int), x1.take(p1.2 as int));
        let f2 = lemma_busy_rounds_first(a, p2.0, programs, k2, s2.take(p2.1 as int), x2.take(p2.2 as int));
        lemma_run_order_unique(a.tasks@, f1.3, f2.3);
        assert(slots_in_range(f1.3, N as nat));
        assert(s1.take(p1.1 as int).take(f1.1 as int) =~= s1.take(f1.1 as int));
        assert(s2.take(p2.1 as int).take(f2.1 as int) =~= s2.take(f2.1 as int));
        assert(x1.take(p1.2 as int).take(f1.2 as int) =~= x1.take(f1.2 as int));
        assert(x2.take(p2.2 as int).take(f2.2 as int) =~= x2.take(f2.2 as int));
        lemma_agree_take(s1, s2, f1.1 as int, f2.1 as int);
        lemma_round_determined(a, f1.0, f2.0, programs, f1.3, N as nat, s1.take(f1.1 as int), s2.take(f2.1 as int), x1.take(f1.2 as int), x2.take(f2.2 as int));
        assert(f1.1 == f2.1);
        let j = f1.1;
        let m = f1.0;
        lemma_tick_rest_after_first(m, p1.0, b1, programs, (k1 - 1) as nat, s1, x1, p1.1, p1.2, f1.1, f1.2, r1, p1.3);
        lemma_tick_rest_after_first(m, p2.0, b2, programs, (k2 - 1) as nat, s2, x2, p2.1, p2.2, f2.1, f2.2, r2, p2.3);
        lemma_agree_skip(s1, s2, j as int);
        lemma_tick_rest_determined(
            m,
            b1,
            b2,
            programs,
            (k1 - 1) as nat,
            (k2 - 1) as nat,
            s1.skip(j as int),
            s2.skip(j as int),
            x1.skip(f1.2 as int),
            x2.skip(f2.2 as int),
            r1,
            r2,
        );
        assert(s1 =~= s1.take(j as int) + s1.skip(j as int));
        assert(s2 =~= s2.take(j as int) + s2.skip(j as int));
        assert(x1 =~= x1.take(f1.2 as int) + x1.skip(f1.2 as int));
        assert(x2 =~= x2.take(f2.2 as int) + x2.skip(f2.2 as int));
    } else if k1 > 0 {
        lemma_busy_vs_last(a, p1.0, programs, k1, s1, x1, p1.1, p1.2, b2, p2.0, s2, x2, p2.1, p2.2, r2, p2.3);
    } else if k2 > 0 {
        lemma_busy_vs_last(a, p2.0, programs, k2, s2, x2, p2.1, p2.2, b1, p1.0, s1, x1, p1.1, p1.2, r1, p1.3);
    } else {
        assert(p1.0 == a && p2.0 == a);
        assert(s1.take(p1.1 as int).len() == 0 && s2.take(p2.1 as int).len() == 0);
        assert(x1.take(p1.2 as int).len() == 0 && x2.take(p2.2 as int).len() == 0);
        assert(s1.skip(0) =~= s1);
        assert(s2.skip(0) =~= s2);
        assert(x1.skip(0) =~= x1);
        assert(x2.skip(0) =~= x2);
        lemma_run_order_unique(a.tasks@, p1.3, p2.3);
        assert(slots_in_range(p1.3, N as nat));
        lemma_round_done_determined(a, b1, b2, programs, p1.3, s1, s2, x1, x2, r1, r2);
    }
}

/// Once the first busy round of a tick's rest is done, what is left is again a tick's rest.
proof fn lemma_tick_rest_after_first<const N: usize, const S: usize>(
    m: RuntimeSnapshot<N, S>,
    mm: RuntimeSnapshot<N, S>,
    b: RuntimeSnapshot<N, S>,
    programs: Seq<Program>,
    k: nat,
    s: Seq<bool>,
    x: Seq<Effect>,
    jj: nat,
    ii: nat,
    j: nat,
    i: nat,
    r: Result<(), RuntimeError>,
    o: Seq<Option<usize>>,
)
    requires
        busy_rounds(m, mm, programs, k, s.take(jj as int).skip(j as int), x.take(ii as int).skip(i as int)),
        j <= jj,
        jj <= s.len(),
        i <= ii,
        ii <= x.len(),
        crate::runtime::run_order(mm.tasks@, o),
        round_done(mm, b, programs, o, s.skip(jj as int), x.skip(ii as int), r),
        r is Ok ==> b == mm,
    ensures
        tick_rest(m, b, programs, k, s.skip(j as int), x.skip(i as int), r),
{
    let t = s.skip(j as int);
    let u = x.skip(i as int);
    assert(t.take((jj - j) as int) =~= s.take(jj as int).skip(j as int));
    assert(t.skip((jj - j) as int) =~= s.skip(jj as int));
    assert(u.take((ii - i) as int) =~= x.take(ii as int).skip(i as int));
    assert(u.skip((ii - i) as int) =~= x.skip(ii as int));
    assert(busy_rounds(m, mm, programs, k, t.take((jj - j) as int), u.take((ii - i) as int)));
    assert(crate::runtime::run_order(mm.tasks@, o) && round_done(
        mm,
        b,
        programs,
        o,
        t.skip((jj - j) as int),
        u.skip((ii - i) as int),
        r,
    ));
}

/// A tick's rest with a busy round first and one whose last round comes first do not both
/// happen, given the host's answers.
proof fn lemma_busy_vs_last<const N: usize, const S: usize>(
    a: RuntimeSnapshot<N, S>,
    mm1: RuntimeSnapshot<N, S>,
    programs: Seq<Program>,
    k1: nat,
    s1: Seq<bool>,
    x1: Seq<Effect>,
    jj1: nat,
    ii1: nat,
    b2: RuntimeSnapshot<N, S>,
    mm2: RuntimeSnapshot<N, S>,
    s2: Seq<bool>,
    x2: Seq<Effect>,
    jj2: nat,
    ii2: nat,
    r2: Result<(), RuntimeError>,
    o2: Seq<Option<usize>>,
)
    requires
        a.wf(),
        k1 > 0,
        busy_rounds(a, mm1, programs, k1, s1.take(jj1 as int), x1.take(ii1 as int)),
        jj1 <= s1.len(),
        ii1 <= x1.len(),
        busy_rounds(a, mm2, programs, 0, s2.take(jj2 as int), x2.take(ii2 as int)),
        jj2 <= s2.len(),
        ii2 <= x2.len(),
        crate::runtime::run_order(mm2.tasks@, o2),
        round_done(mm2, b2, programs, o2, s2.skip(jj2 as int), x2.skip(ii2 as int), r2),
        r2 is Ok ==> b2 == mm2,
        agree(s1, s2),
    ensures
        r2 == Ok::<(), RuntimeError>(()) && b2 != mm2,
{
    crate::cancellation::lemma_wf_ids_ordered(a);
    let f1 = lemma_busy_rounds_first(a, mm1, programs, k1, s1.take(jj1 as int), x1.take(ii1 as int));
    assert(mm2 == a);
    assert(s2.take(jj2 as int).len() == 0);
    assert(x2.take(ii2 as int).len() == 0);
    assert(s2.skip(jj2 as int) =~= s2);
    assert(x2.skip(ii2 as int) =~= x2);
    lemma_run_order_unique(a.tasks@, f1.3, o2);
    assert(slots_in_range(o2, N as nat));
    assert(s1.take(jj1 as int).take(f1.1 as int) =~= s1.take(f1.1 as int));
    assert(x1.take(ii1 as int).take(f1.2 as int) =~= x1.take(f1.2 as int));
    lemma_agree_take(s1, s2, f1.1 as int, s2.len() as int);
    assert(s2.take(s2.len() as int) =~= s2);
    assert(round_done(a, f1.0, programs, o2, s1.take(f1.1 as int), x1.take(f1.2 as int), Ok(())));
    lemma_round_done_determined(
        a,
        f1.0,
        b2,
        programs,
        o2,
        s1.take(f1.1 as int),
        s2,
        x1.take(f1.2 as int),
        x2,
        Ok(()),
        r2,
    );
}

/// A tick is determined by the state it starts from and the host's answers: two ticks
/// from the same well-formed state, whose hosts answered alike (one's answers are a
/// prefix of the other's), end in the same state with the same result, having asked the
/// same questions, made the same requests of the host and traced the same events.
pub proof fn lemma_tick_deterministic<const N: usize, const S: usize>(
    old_s: RuntimeSnapshot<N, S>,
    new1: RuntimeSnapshot<N, S>,
    new2: RuntimeSnapshot<N, S>,
    programs: Seq<Program>,
    s1: Seq<bool>,
    s2: Seq<bool>,
    x1: Seq<Effect>,
    x2: Seq<Effect>,
    r1: Result<crate::runtime::StepReport, RuntimeError>,
    r2: Result<crate::runtime::StepReport, RuntimeError>,
)
    requires
        old_s.wf(),
        tick_run(old_s, new1, programs, s1, x1, r1),
        tick_run(old_s, new2, programs, s2, x2, r2),
        agree(s1, s2),
    ensures
        new1 == new2,
        r1 == r2,
        s1 == s2,
        x1 == x2,
{
    let start = RuntimeSnapshot { clock: old_s.clock.saturating_add(1), ..old_s };
    assert(start.wf());
    let e1 = lemma_tick_as_rest(old_s, new1, programs, s1, x1, r1);
    let e2 = lemma_tick_as_rest(old_s, new2, programs, s2, x2, r2);
    lemma_tick_rest_determined(start, e1.0, e2.0, programs, e1.1, e2.1, s1, s2, x1, x2, e1.2, e2.2);
    match (r1, r2) {
        (Ok(p1), Ok(p2)) => {
            assert(new1.pending_signals@ =~= new2.pending_signals@);
            lemma_snapshot_ext(new1, new2);
        },
        _ => {},
    }
}

/// A tick is a tick's rest from its start, with the clock advanced.
proof fn lemma_tick_as_rest<const N: usize, const S: usize>(
    old_s: RuntimeSnapshot<N, S>,
    new_s: RuntimeSnapshot<N, S>,
    programs: Seq<Program>,
    s: Seq<bool>,
    x: Seq<Effect>,
    r: Result<crate::runtime::StepReport, RuntimeError>,
) -> (rest: (RuntimeSnapshot<N, S>, nat, Result<(), RuntimeError>))
    requires
        tick_run(old_s, new_s, programs, s, x, r),
    ensures
        tick_rest(
            RuntimeSnapshot { clock: old_s.clock.saturating_add(1), ..old_s },
            rest.0,
            programs,
            rest.1,
            s,
            x,
            rest.2,
        ),
        match r {
            Ok(report) => {
                &&& rest.2 == Ok::<(), RuntimeError>(())
                &&& rest.0 == RuntimeSnapshot { pending_signals: old_s.pending_signals, ..new_s }
                &&& forall|i: int| 0 <= i < S ==> #[trigger] new_s.pending_signals@[i] is None
                &&& report == crate::runtime::StepReport {
                    clock: new_s.clock,
                    actions_emitted: crate::runtime::add_capped(0, action_count(x)),
                    progress_made: rest.1 > 0,
                }
            },
            Err(e) => rest.2 == Err::<(), RuntimeError>(e) && rest.0 == new_s,
        },
{
    let start = RuntimeSnapshot { clock: old_s.clock.saturating_add(1), ..old_s };
    let (k, m, j, i) = choose|k: nat, m: RuntimeSnapshot<N, S>, j: nat, i: nat|
        #[trigger] busy_rounds(start, m, programs, k, s.take(j as int), x.take(i as int)) && j <= s.len()
            && i <= x.len() && exists|order: Seq<Option<usize>>|
            #[trigger] crate::runtime::run_order(m.tasks@, order) && match r {
                Ok(report) => round_upto(m, m, programs, order, N as nat, s.skip(j as int), x.skip(i as int))
                    && RuntimeSnapshot { pending_signals: old_s.pending_signals, ..new_s } == m
                    && (forall|y: int| 0 <= y < S ==> #[trigger] new_s.pending_signals@[y] is None)
                    && report == crate::runtime::StepReport {
                    clock: new_s.clock,
                    actions_emitted: crate::runtime::add_capped(0, action_count(x)),
                    progress_made: k > 0,
                },
                Err(e) => round_failed(m, new_s, programs, order, s.skip(j as int), x.skip(i as int), e),
            };
    let order = choose|order: Seq<Option<usize>>|
        #[trigger] crate::runtime::run_order(m.tasks@, order) && match r {
            Ok(report) => round_upto(m, m, programs, order, N as nat, s.skip(j as int), x.skip(i as int))
                && RuntimeSnapshot { pending_signals: old_s.pending_signals, ..new_s } == m
                && (forall|y: int| 0 <= y < S ==> #[trigger] new_s.pending_signals@[y] is None)
                && report == crate::runtime::StepReport {
                clock: new_s.clock,
                actions_emitted: crate::runtime::add_capped(0, action_count(x)),
                progress_made: k > 0,
            },
            Err(e) => round_failed(m, new_s, programs, order, s.skip(j as int), x.skip(i as int), e),
        };
    assert(order.len() == N);
    match r {
        Ok(report) => {
            assert(round_done(m, m, programs, order, s.skip(j as int), x.skip(i as int), Ok(())));
            (m, k, Ok(()))
        },
        Err(e) => {
            assert(round_done(m, new_s, programs, order, s.skip(j as int), x.skip(i as int), Err(e)));
            (new_s, k, Err(e))
        },
    }
}

} // verus!
