//! What a cancellation takes down: the tasks it aims at, and every running task below a
//! cancelled one, and nothing else.
use vstd::prelude::*;

use crate::ids::TaskId;
use crate::runtime::{cancelled_record, holds_task, only_cancels, TaskRecord};
use crate::snapshot::{slot_running, RuntimeSnapshot};

verus! {

/// The task `id` occupies a slot of `a` whose record differs in `b`.
pub open spec fn changed_task(a: Seq<Option<TaskRecord>>, b: Seq<Option<TaskRecord>>, id: TaskId) -> bool {
    exists|k: int| 0 <= k < a.len() && #[trigger] holds_task(a[k], id) && b[k] != a[k]
}

/// `t` hangs from a task whose record differs between `a` and `b`.
pub open spec fn parent_changed(t: TaskRecord, a: Seq<Option<TaskRecord>>, b: Seq<Option<TaskRecord>>) -> bool {
    match t.parent {
        Some(p) => changed_task(a, b, p),
        None => false,
    }
}

/// Every change from `a` to `b` cancels a running task that `target` picks or that hangs
/// from a changed task, and no task left running hangs from a changed one.
pub open spec fn cancels_within(
    a: Seq<Option<TaskRecord>>,
    b: Seq<Option<TaskRecord>>,
    target: spec_fn(TaskRecord) -> bool,
) -> bool {
    &&& only_cancels(a, b)
    &&& forall|i: int|
        #![trigger b[i]]
        0 <= i < a.len() && b[i] != a[i] ==> target(a[i].unwrap()) || parent_changed(a[i].unwrap(), a, b)
    &&& forall|i: int|
        0 <= i < b.len() && slot_running(#[trigger] b[i]) ==> !parent_changed(b[i].unwrap(), a, b)
}

/// `b` is `a` with the running tasks that `target` picks cancelled, together with every
/// running task below a cancelled one, and nothing else.
pub open spec fn cancels_exactly(
    a: Seq<Option<TaskRecord>>,
    b: Seq<Option<TaskRecord>>,
    target: spec_fn(TaskRecord) -> bool,
) -> bool {
    &&& cancels_within(a, b, target)
    &&& forall|i: int| 0 <= i < b.len() && slot_running(#[trigger] b[i]) ==> !target(b[i].unwrap())
}

/// Aims at the children of `parent`.
pub open spec fn child_target(parent: TaskId) -> spec_fn(TaskRecord) -> bool {
    |t: TaskRecord| t.parent == Some(parent)
}

/// Aims at the task `id`.
pub open spec fn task_target(id: TaskId) -> spec_fn(TaskRecord) -> bool {
    |t: TaskRecord| t.id == id
}

/// Aims at the tasks `left` and `right`.
pub open spec fn pair_target(left: TaskId, right: TaskId) -> spec_fn(TaskRecord) -> bool {
    |t: TaskRecord| t.id == left || t.id == right
}

/// Aims at nothing.
pub open spec fn no_target() -> spec_fn(TaskRecord) -> bool {
    |t: TaskRecord| false
}

/// Task ids are distinct and a parent's id is below its child's.
pub open spec fn ids_ordered(tasks: Seq<Option<TaskRecord>>) -> bool {
    &&& forall|i: int, j: int|
        0 <= i < tasks.len() && 0 <= j < tasks.len() && i != j && #[trigger] tasks[i] is Some
            && #[trigger] tasks[j] is Some ==> tasks[i].unwrap().id != tasks[j].unwrap().id
    &&& forall|i: int|
        0 <= i < tasks.len() && #[trigger] tasks[i] is Some && tasks[i].unwrap().parent is Some
            ==> tasks[i].unwrap().parent.unwrap().0 < tasks[i].unwrap().id.0
}

pub proof fn lemma_wf_ids_ordered<const N: usize, const S: usize>(s: RuntimeSnapshot<N, S>)
    requires
        s.wf(),
    ensures
        ids_ordered(s.tasks@),
{
}

/// Nothing changes when no running task is aimed at.
pub proof fn lemma_cancels_nothing(a: Seq<Option<TaskRecord>>, target: spec_fn(TaskRecord) -> bool)
    requires
        forall|i: int| 0 <= i < a.len() && slot_running(#[trigger] a[i]) ==> !target(a[i].unwrap()),
    ensures
        cancels_exactly(a, a, target),
{
    assert forall|i: int| 0 <= i < a.len() && slot_running(#[trigger] a[i]) implies !parent_changed(
        a[i].unwrap(),
        a,
        a,
    ) by {
        if let Some(p) = a[i].unwrap().parent {
            assert(!changed_task(a, a, p));
        }
    }
}

/// A task that changed from `a` to `m` stays changed from `a` to `b`.
proof fn lemma_changed_stays(
    a: Seq<Option<TaskRecord>>,
    m: Seq<Option<TaskRecord>>,
    b: Seq<Option<TaskRecord>>,
    id: TaskId,
)
    requires
        only_cancels(a, m),
        only_cancels(m, b),
        changed_task(a, m, id),
    ensures
        changed_task(a, b, id),
{
    let k = choose|k: int| 0 <= k < a.len() && #[trigger] holds_task(a[k], id) && m[k] != a[k];
    assert(m[k] == a[k] || (slot_running(a[k]) && m[k] == Some(cancelled_record(a[k].unwrap()))));
    assert(b[k] == m[k] || (slot_running(m[k]) && b[k] == Some(cancelled_record(m[k].unwrap()))));
    assert(b[k] != a[k]);
}

/// A task that changed from `a` to `b` changed from `a` to `m` or from `m` to `b`.
proof fn lemma_changed_split(
    a: Seq<Option<TaskRecord>>,
    m: Seq<Option<TaskRecord>>,
    b: Seq<Option<TaskRecord>>,
    id: TaskId,
)
    requires
        only_cancels(a, m),
        only_cancels(m, b),
        changed_task(a, b, id),
    ensures
        changed_task(a, m, id) || changed_task(m, b, id),
{
    let k = choose|k: int| 0 <= k < a.len() && #[trigger] holds_task(a[k], id) && b[k] != a[k];
    assert(m[k] == a[k] || (slot_running(a[k]) && m[k] == Some(cancelled_record(a[k].unwrap()))));
    if m[k] == a[k] {
        assert(holds_task(m[k], id));
    }
}

/// Two cancellations in a row aim at what either aims at.
pub proof fn lemma_cancels_trans(
    a: Seq<Option<TaskRecord>>,
    m: Seq<Option<TaskRecord>>,
    b: Seq<Option<TaskRecord>>,
    t1: spec_fn(TaskRecord) -> bool,
    t2: spec_fn(TaskRecord) -> bool,
    t: spec_fn(TaskRecord) -> bool,
)
    requires
        cancels_exactly(a, m, t1),
        cancels_exactly(m, b, t2),
        forall|x: TaskRecord| #[trigger] t(x) == (t1(x) || t2(x)),
    ensures
        cancels_exactly(a, b, t),
{
    crate::runtime::lemma_only_cancels_trans(a, m, b);
    assert forall|i: int|
        #![trigger b[i]]
        0 <= i < a.len() && b[i] != a[i] implies t(a[i].unwrap()) || parent_changed(
        a[i].unwrap(),
        a,
        b,
    ) by {
        assert(m[i] == a[i] || (slot_running(a[i]) && m[i] == Some(cancelled_record(a[i].unwrap()))));
        assert(b[i] == m[i] || (slot_running(m[i]) && b[i] == Some(cancelled_record(m[i].unwrap()))));
        if m[i] != a[i] {
            assert(t1(a[i].unwrap()) || parent_changed(a[i].unwrap(), a, m));
            assert(t(a[i].unwrap()) == (t1(a[i].unwrap()) || t2(a[i].unwrap())));
            if let Some(p) = a[i].unwrap().parent {
                if changed_task(a, m, p) {
                    lemma_changed_stays(a, m, b, p);
                }
            }
        } else {
            assert(b[i] != m[i]);
            assert(t2(m[i].unwrap()) || parent_changed(m[i].unwrap(), m, b));
            assert(t(a[i].unwrap()) == (t1(a[i].unwrap()) || t2(a[i].unwrap())));
            if let Some(p) = a[i].unwrap().parent {
                if changed_task(m, b, p) {
                    let k = choose|k: int| 0 <= k < m.len() && #[trigger] holds_task(m[k], p) && b[k] != m[k];
                    assert(m[k] == a[k] || (slot_running(a[k]) && m[k] == Some(cancelled_record(a[k].unwrap()))));
                    assert(b[k] == m[k] || (slot_running(m[k]) && b[k] == Some(cancelled_record(m[k].unwrap()))));
                    assert(holds_task(a[k], p));
                    assert(changed_task(a, b, p));
                }
            }
        }
    }
    assert forall|i: int| 0 <= i < b.len() && slot_running(#[trigger] b[i]) implies !parent_changed(
        b[i].unwrap(),
        a,
        b,
    ) && !t(b[i].unwrap()) by {
        assert(b[i] == m[i] || (slot_running(m[i]) && b[i] == Some(cancelled_record(m[i].unwrap()))));
        assert(m[i] == b[i]);
        assert(slot_running(m[i]));
        assert(!t1(m[i].unwrap()));
        assert(!t2(b[i].unwrap()));
        assert(t(b[i].unwrap()) == (t1(b[i].unwrap()) || t2(b[i].unwrap())));
        if let Some(p) = b[i].unwrap().parent {
            if changed_task(a, b, p) {
                lemma_changed_split(a, m, b, p);
                assert(!parent_changed(m[i].unwrap(), a, m));
                assert(!parent_changed(b[i].unwrap(), m, b));
            }
        }
    }
}

/// A running task that is not aimed at, whose record is untouched, may be replaced by a
/// running record with the same parent on both sides.
pub proof fn lemma_cancels_update(
    a: Seq<Option<TaskRecord>>,
    m: Seq<Option<TaskRecord>>,
    target: spec_fn(TaskRecord) -> bool,
    s: int,
    x: TaskRecord,
)
    requires
        cancels_exactly(a, m, target),
        0 <= s < a.len(),
        slot_running(a[s]),
        m[s] == a[s],
        slot_running(Some(x)),
        x.parent == a[s].unwrap().parent,
        !target(x),
    ensures
        cancels_exactly(a.update(s, Some(x)), m.update(s, Some(x)), target),
{
    let a2 = a.update(s, Some(x));
    let m2 = m.update(s, Some(x));
    assert forall|i: int| 0 <= i < a2.len() implies #[trigger] m2[i] == a2[i] || (slot_running(a2[i])
        && m2[i] == Some(cancelled_record(a2[i].unwrap()))) by {
        if i != s {
            assert(m[i] == a[i] || (slot_running(a[i]) && m[i] == Some(cancelled_record(a[i].unwrap()))));
        }
    }
    assert forall|p: TaskId| #[trigger] changed_task(a2, m2, p) implies changed_task(a, m, p) by {
        let k = choose|k: int| 0 <= k < a2.len() && #[trigger] holds_task(a2[k], p) && m2[k] != a2[k];
        assert(k != s);
        assert(holds_task(a[k], p));
    }
    assert forall|i: int|
        #![trigger m2[i]]
        0 <= i < a2.len() && m2[i] != a2[i] implies target(a2[i].unwrap()) || parent_changed(
        a2[i].unwrap(),
        a2,
        m2,
    ) by {
        assert(i != s);
        assert(m[i] != a[i]);
        assert(target(a[i].unwrap()) || parent_changed(a[i].unwrap(), a, m));
        if let Some(p) = a[i].unwrap().parent {
            if changed_task(a, m, p) {
                let k = choose|k: int| 0 <= k < a.len() && #[trigger] holds_task(a[k], p) && m[k] != a[k];
                assert(k != s);
                assert(holds_task(a2[k], p));
                assert(changed_task(a2, m2, p));
            }
        }
    }
    assert forall|i: int| 0 <= i < m2.len() && slot_running(#[trigger] m2[i]) implies !parent_changed(
        m2[i].unwrap(),
        a2,
        m2,
    ) && !target(m2[i].unwrap()) by {
        if i == s {
            assert(slot_running(m[s]));
            assert(!parent_changed(m[s].unwrap(), a, m));
        } else {
            assert(slot_running(m[i]));
            assert(!parent_changed(m[i].unwrap(), a, m));
        }
    }
}

/// A cancellation that goes on with a second one, whose aims the first already covers
/// among the running tasks, stays within the first's aim.
pub proof fn lemma_cancels_within_step(
    a: Seq<Option<TaskRecord>>,
    m: Seq<Option<TaskRecord>>,
    b: Seq<Option<TaskRecord>>,
    t1: spec_fn(TaskRecord) -> bool,
    t2: spec_fn(TaskRecord) -> bool,
)
    requires
        cancels_within(a, m, t1),
        cancels_within(m, b, t2),
        forall|i: int|
            0 <= i < m.len() && slot_running(#[trigger] m[i]) && t2(m[i].unwrap()) ==> t1(m[i].unwrap()),
    ensures
        cancels_within(a, b, t1),
{
    crate::runtime::lemma_only_cancels_trans(a, m, b);
    assert forall|i: int|
        #![trigger b[i]]
        0 <= i < a.len() && b[i] != a[i] implies t1(a[i].unwrap()) || parent_changed(
        a[i].unwrap(),
        a,
        b,
    ) by {
        assert(m[i] == a[i] || (slot_running(a[i]) && m[i] == Some(cancelled_record(a[i].unwrap()))));
        assert(b[i] == m[i] || (slot_running(m[i]) && b[i] == Some(cancelled_record(m[i].unwrap()))));
        if m[i] != a[i] {
            assert(t1(a[i].unwrap()) || parent_changed(a[i].unwrap(), a, m));
            if let Some(p) = a[i].unwrap().parent {
                if changed_task(a, m, p) {
                    lemma_changed_stays(a, m, b, p);
                }
            }
        } else {
            assert(b[i] != m[i]);
            assert(t2(m[i].unwrap()) || parent_changed(m[i].unwrap(), m, b));
            if let Some(p) = a[i].unwrap().parent {
                if changed_task(m, b, p) {
                    let k = choose|k: int| 0 <= k < m.len() && #[trigger] holds_task(m[k], p) && b[k] != m[k];
                    assert(m[k] == a[k] || (slot_running(a[k]) && m[k] == Some(cancelled_record(a[k].unwrap()))));
                    assert(b[k] == m[k] || (slot_running(m[k]) && b[k] == Some(cancelled_record(m[k].unwrap()))));
                    assert(holds_task(a[k], p));
                    assert(changed_task(a, b, p));
                }
            }
        }
    }
    assert forall|i: int| 0 <= i < b.len() && slot_running(#[trigger] b[i]) implies !parent_changed(
        b[i].unwrap(),
        a,
        b,
    ) by {
        assert(b[i] == m[i] || (slot_running(m[i]) && b[i] == Some(cancelled_record(m[i].unwrap()))));
        assert(m[i] == b[i]);
        assert(slot_running(m[i]));
        if let Some(p) = b[i].unwrap().parent {
            if changed_task(a, b, p) {
                lemma_changed_split(a, m, b, p);
                assert(!parent_changed(m[i].unwrap(), a, m));
                assert(!parent_changed(b[i].unwrap(), m, b));
            }
        }
    }
}

/// No running task is the task `id` when `id` does not run.
pub proof fn lemma_not_running_spared(tasks: Seq<Option<TaskRecord>>, id: TaskId)
    requires
        ids_ordered(tasks),
        !crate::runtime::task_running(tasks, id),
    ensures
        forall|i: int|
            0 <= i < tasks.len() && slot_running(#[trigger] tasks[i]) ==> !task_target(id)(tasks[i].unwrap()),
{
    assert forall|i: int| 0 <= i < tasks.len() && slot_running(#[trigger] tasks[i]) implies !task_target(id)(
        tasks[i].unwrap(),
    ) by {
        if tasks[i].unwrap().id == id {
            assert forall|j: int| 0 <= j < i implies !holds_task(#[trigger] tasks[j], id) by {
                if tasks[j] is Some {
                    assert(tasks[j].unwrap().id != tasks[i].unwrap().id);
                }
            }
            assert(crate::runtime::is_slot_of(tasks, id, i));
        }
    }
}

/// Cancelling the running task `id` after its children: the task and what hangs from it.
pub proof fn lemma_cancels_subtree(
    a: Seq<Option<TaskRecord>>,
    m: Seq<Option<TaskRecord>>,
    b: Seq<Option<TaskRecord>>,
    slot: int,
    id: TaskId,
)
    requires
        ids_ordered(a),
        cancels_exactly(a, m, child_target(id)),
        0 <= slot < a.len(),
        holds_task(a[slot], id),
        slot_running(a[slot]),
        m[slot] == a[slot],
        b == m.update(slot, Some(cancelled_record(m[slot].unwrap()))),
    ensures
        cancels_exactly(a, b, task_target(id)),
{
    assert(only_cancels(m, b));
    crate::runtime::lemma_only_cancels_trans(a, m, b);
    assert(holds_task(a[slot], id) && b[slot] != a[slot]);
    assert(changed_task(a, b, id));
    assert forall|i: int|
        #![trigger b[i]]
        0 <= i < a.len() && b[i] != a[i] implies task_target(id)(a[i].unwrap()) || parent_changed(
        a[i].unwrap(),
        a,
        b,
    ) by {
        if i != slot {
            assert(b[i] == m[i]);
            assert(child_target(id)(a[i].unwrap()) || parent_changed(a[i].unwrap(), a, m));
            if let Some(p) = a[i].unwrap().parent {
                if changed_task(a, m, p) {
                    lemma_changed_stays(a, m, b, p);
                }
            }
        }
    }
    assert forall|i: int| 0 <= i < b.len() && slot_running(#[trigger] b[i]) implies !parent_changed(
        b[i].unwrap(),
        a,
        b,
    ) && !task_target(id)(b[i].unwrap()) by {
        assert(i != slot);
        assert(b[i] == m[i]);
        assert(!child_target(id)(m[i].unwrap()));
        assert(!parent_changed(m[i].unwrap(), a, m));
        assert(a[i] == m[i]);
        assert(a[i].unwrap().id != a[slot].unwrap().id);
        if let Some(p) = b[i].unwrap().parent {
            if changed_task(a, b, p) {
                lemma_changed_split(a, m, b, p);
                if changed_task(m, b, p) {
                    let k = choose|k: int| 0 <= k < m.len() && #[trigger] holds_task(m[k], p) && b[k] != m[k];
                    assert(k == slot);
                }
            }
        }
    }
}

/// A running task is cancelled exactly when it is aimed at or its parent was cancelled:
/// so by induction on ids, the outcome of a cancellation is fixed by the state and the aim.
proof fn lemma_cancels_agree_below(
    a: Seq<Option<TaskRecord>>,
    b1: Seq<Option<TaskRecord>>,
    b2: Seq<Option<TaskRecord>>,
    target: spec_fn(TaskRecord) -> bool,
    bound: nat,
)
    requires
        ids_ordered(a),
        cancels_exactly(a, b1, target),
        cancels_exactly(a, b2, target),
    ensures
        forall|i: int|
            0 <= i < a.len() && #[trigger] a[i] is Some && a[i].unwrap().id.0 < bound ==> b1[i] == b2[i],
    decreases bound,
{
    if bound > 0 {
        lemma_cancels_agree_below(a, b1, b2, target, (bound - 1) as nat);
        assert forall|i: int|
            0 <= i < a.len() && #[trigger] a[i] is Some && a[i].unwrap().id.0 < bound implies b1[i]
            == b2[i] by {
            if a[i].unwrap().id.0 < bound - 1 {
            } else {
                assert(b1[i] == a[i] || (slot_running(a[i]) && b1[i] == Some(cancelled_record(a[i].unwrap()))));
                assert(b2[i] == a[i] || (slot_running(a[i]) && b2[i] == Some(cancelled_record(a[i].unwrap()))));
                if slot_running(a[i]) {
                    let t = a[i].unwrap();
                    assert forall|p: TaskId| t.parent == Some(p) && #[trigger] changed_task(a, b1, p) implies changed_task(
                        a,
                        b2,
                        p,
                    ) by {
                        let k = choose|k: int| 0 <= k < a.len() && #[trigger] holds_task(a[k], p) && b1[k] != a[k];
                        assert(a[k].unwrap().id.0 < t.id.0);
                        assert(b1[k] == b2[k]);
                    }
                    assert forall|p: TaskId| t.parent == Some(p) && #[trigger] changed_task(a, b2, p) implies changed_task(
                        a,
                        b1,
                        p,
                    ) by {
                        let k = choose|k: int| 0 <= k < a.len() && #[trigger] holds_task(a[k], p) && b2[k] != a[k];
                        assert(a[k].unwrap().id.0 < t.id.0);
                        assert(b1[k] == b2[k]);
                    }
                    assert(parent_changed(t, a, b1) == parent_changed(t, a, b2));
                    if b1[i] == a[i] {
                        assert(slot_running(b1[i]));
                        assert(!target(t) && !parent_changed(t, a, b1));
                    }
                    if b2[i] == a[i] {
                        assert(slot_running(b2[i]));
                        assert(!target(t) && !parent_changed(t, a, b2));
                    }
                }
            }
        }
    }
}

/// What a cancellation takes down is fixed by the task slots and what it aims at: two
/// results of the same cancellation are the same.
pub proof fn lemma_cancellation_determined(
    a: Seq<Option<TaskRecord>>,
    b1: Seq<Option<TaskRecord>>,
    b2: Seq<Option<TaskRecord>>,
    target: spec_fn(TaskRecord) -> bool,
)
    requires
        ids_ordered(a),
        cancels_exactly(a, b1, target),
        cancels_exactly(a, b2, target),
    ensures
        b1 == b2,
{
    lemma_cancels_agree_below(a, b1, b2, target, 0x1_0000_0000nat);
    assert forall|i: int| 0 <= i < a.len() implies #[trigger] b1[i] == b2[i] by {
        if a[i] is Some {
        } else {
            assert(b1[i] == a[i] || (slot_running(a[i]) && b1[i] == Some(cancelled_record(a[i].unwrap()))));
            assert(b2[i] == a[i] || (slot_running(a[i]) && b2[i] == Some(cancelled_record(a[i].unwrap()))));
        }
    }
    assert(b1 =~= b2);
}

} // verus!
