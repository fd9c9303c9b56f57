//! The runtime's plain-data state, its well-formedness, and the termination measure of a tick.
use vstd::prelude::*;

use crate::ids::SignalId;
use crate::program::{find_program, Program};
use crate::runtime::{Outcome, TaskRecord, WaitReason};

verus! {

/// Everything the runtime needs to resume: the clock, the id counter, task slots, and
/// the signals queued for the next tick.
#[derive(Clone, Copy, Debug, PartialEq, Eq)]
pub struct RuntimeSnapshot<const MAX_TASKS: usize, const MAX_PENDING_SIGNALS: usize> {
    pub clock: u64,
    pub next_task_id: u32,
    pub tasks: [Option<TaskRecord>; MAX_TASKS],
    pub pending_signals: [Option<SignalId>; MAX_PENDING_SIGNALS],
}

pub open spec fn is_running(t: TaskRecord) -> bool {
    t.outcome == Outcome::Running
}

pub open spec fn slot_running(t: Option<TaskRecord>) -> bool {
    t matches Some(r) && is_running(r)
}

/// Task ids named by a wait reason (the children it waits on) come after the waiting task.
pub open spec fn wait_refs_after(wait: WaitReason, id: u32) -> bool {
    match wait {
        WaitReason::Race { left, right } => left.0 > id && right.0 > id,
        WaitReason::RaceOrTicks { left, right, .. } => left.0 > id && right.0 > id,
        WaitReason::Timeout { child, .. } => child.0 > id,
        _ => true,
    }
}

/// Sum of `f` over the slots.
pub open spec fn slot_sum(tasks: Seq<Option<TaskRecord>>, f: spec_fn(Option<TaskRecord>) -> nat) -> nat
    decreases tasks.len(),
{
    if tasks.len() == 0 {
        0
    } else {
        slot_sum(tasks.drop_last(), f) + f(tasks.last())
    }
}

pub open spec fn free_indicator() -> spec_fn(Option<TaskRecord>) -> nat {
    |t: Option<TaskRecord>|
        if t is None {
            1nat
        } else {
            0nat
        }
}

/// Number of empty slots.
pub open spec fn free_slot_count(tasks: Seq<Option<TaskRecord>>) -> nat {
    slot_sum(tasks, free_indicator())
}

/// Number of ops of the first program with the given id (0 when there is none).
pub open spec fn op_len(programs: Seq<Program>, id: crate::ids::ProgramId) -> nat {
    match find_program(programs, id) {
        Some(i) => programs[i].ops@.len(),
        None => 0,
    }
}

/// Work a task can still do in this tick: remaining ops (twice), one for being alive, one
/// for a pending wake-up. Finished tasks and empty slots weigh nothing.
pub open spec fn task_weight(t: Option<TaskRecord>, programs: Seq<Program>) -> nat {
    match t {
        Some(r) => if is_running(r) {
            let len = op_len(programs, r.program_id);
            let rest: nat = if (r.ip as nat) < len {
                (len - r.ip) as nat
            } else {
                0
            };
            2 * rest + 1 + if r.wait is Ready {
                0nat
            } else {
                1nat
            }
        } else {
            0
        },
        None => 0,
    }
}

pub open spec fn weight_fn(programs: Seq<Program>) -> spec_fn(Option<TaskRecord>) -> nat {
    |t: Option<TaskRecord>| task_weight(t, programs)
}

/// Sum of task weights.
pub open spec fn load(tasks: Seq<Option<TaskRecord>>, programs: Seq<Program>) -> nat {
    slot_sum(tasks, weight_fn(programs))
}

/// Lexicographic order on (free slots, load): every step of a tick lowers it.
pub open spec fn lex_lt(a: (nat, nat), b: (nat, nat)) -> bool {
    a.0 < b.0 || (a.0 == b.0 && a.1 < b.1)
}

pub open spec fn lex_le(a: (nat, nat), b: (nat, nat)) -> bool {
    lex_lt(a, b) || a == b
}

/// Every task that occupied a slot still occupies it with the same identity, and a
/// finished task is never changed again.
pub open spec fn keeps_history(old_tasks: Seq<Option<TaskRecord>>, new_tasks: Seq<Option<TaskRecord>>) -> bool {
    &&& new_tasks.len() == old_tasks.len()
    &&& forall|i: int|
        0 <= i < old_tasks.len() && #[trigger] old_tasks[i] is Some ==> {
            let o = old_tasks[i].unwrap();
            let n = new_tasks[i];
            &&& n is Some
            &&& n.unwrap().id == o.id
            &&& n.unwrap().program_id == o.program_id
            &&& n.unwrap().parent == o.parent
            &&& n.unwrap().scope_root == o.scope_root
            &&& (!is_running(o) ==> n == old_tasks[i])
        }
}

impl<const MAX_TASKS: usize, const MAX_PENDING_SIGNALS: usize> RuntimeSnapshot<
    MAX_TASKS,
    MAX_PENDING_SIGNALS,
> {
    /// Well-formedness: ids are positive, at most `next_task_id` and distinct; a parent's
    /// id is below its child's; the tasks a wait names come after the waiting task; and
    /// enough ids remain for every free slot.
    pub open spec fn wf(self) -> bool {
        let tasks = self.tasks@;
        &&& forall|i: int|
            0 <= i < MAX_TASKS && #[trigger] tasks[i] is Some ==> 1 <= tasks[i].unwrap().id.0
                <= self.next_task_id
        &&& forall|i: int, j: int|
            0 <= i < MAX_TASKS && 0 <= j < MAX_TASKS && i != j && #[trigger] tasks[i] is Some
                && #[trigger] tasks[j] is Some ==> tasks[i].unwrap().id != tasks[j].unwrap().id
        &&& forall|i: int|
            0 <= i < MAX_TASKS && #[trigger] tasks[i] is Some && tasks[i].unwrap().parent is Some
                ==> tasks[i].unwrap().parent.unwrap().0 < tasks[i].unwrap().id.0
        &&& forall|i: int|
            0 <= i < MAX_TASKS && #[trigger] tasks[i] is Some ==> wait_refs_after(
                tasks[i].unwrap().wait,
                tasks[i].unwrap().id.0,
            )
        &&& self.next_task_id + free_slot_count(tasks) <= u32::MAX
    }

    /// The (free slots, load) measure.
    pub open spec fn measure(self, programs: Seq<Program>) -> (nat, nat) {
        (free_slot_count(self.tasks@), load(self.tasks@, programs))
    }

    /// What an in-tick step may do: same clock and signals, ids only grow, history kept,
    /// measure not raised, well-formedness kept.
    pub open spec fn evolves_to(self, next: Self, programs: Seq<Program>) -> bool {
        &&& next.wf()
        &&& next.clock == self.clock
        &&& next.pending_signals == self.pending_signals
        &&& self.next_task_id <= next.next_task_id
        &&& keeps_history(self.tasks@, next.tasks@)
        &&& lex_le(next.measure(programs), self.measure(programs))
    }

    pub open spec fn spec_empty() -> Self {
        RuntimeSnapshot {
            clock: 0,
            next_task_id: 0,
            tasks: vstd::array::spec_array_fill_for_copy_type::<Option<TaskRecord>, MAX_TASKS>(
                None,
            ),
            pending_signals: vstd::array::spec_array_fill_for_copy_type::<
                Option<SignalId>,
                MAX_PENDING_SIGNALS,
            >(None),
        }
    }

    /// A snapshot with clock 0, no tasks and no queued signals.
    pub fn empty() -> (s: Self)
        ensures
            s == Self::spec_empty(),
            s.clock == 0,
            s.next_task_id == 0,
            forall|i: int| 0 <= i < MAX_TASKS ==> s.tasks[i] is None,
            forall|i: int| 0 <= i < MAX_PENDING_SIGNALS ==> s.pending_signals[i] is None,
    {
        let s = RuntimeSnapshot {
            clock: 0,
            next_task_id: 0,
            tasks: [None; MAX_TASKS],
            pending_signals: [None; MAX_PENDING_SIGNALS],
        };
        proof {
            broadcast use vstd::array::group_array_axioms;
        }
        s
    }
}

impl<const MAX_TASKS: usize, const MAX_PENDING_SIGNALS: usize> RuntimeSnapshot<
    MAX_TASKS,
    MAX_PENDING_SIGNALS,
> {
    /// Whether this snapshot is well formed (see `wf`): the test to make before
    /// `Runtime::from_snapshot` on a snapshot that no runtime produced.
    pub fn is_well_formed(&self) -> (ok: bool)
        ensures
            ok == self.wf(),
    {
        let tasks = &self.tasks;
        let mut free: u64 = 0;
        let mut i: usize = 0;
        while i < MAX_TASKS
            invariant
                i <= MAX_TASKS,
                tasks == &self.tasks,
                free == free_slot_count(self.tasks@.take(i as int)),
                free <= i,
                forall|a: int|
                    0 <= a < i && #[trigger] self.tasks@[a] is Some ==> 1 <= self.tasks@[a].unwrap().id.0
                        <= self.next_task_id,
                forall|a: int, b: int|
                    0 <= a < i && 0 <= b < i && a != b && #[trigger] self.tasks@[a] is Some
                        && #[trigger] self.tasks@[b] is Some ==> self.tasks@[a].unwrap().id
                        != self.tasks@[b].unwrap().id,
                forall|a: int|
                    0 <= a < i && #[trigger] self.tasks@[a] is Some && self.tasks@[a].unwrap().parent is Some
                        ==> self.tasks@[a].unwrap().parent.unwrap().0 < self.tasks@[a].unwrap().id.0,
                forall|a: int|
                    0 <= a < i && #[trigger] self.tasks@[a] is Some ==> wait_refs_after(
                        self.tasks@[a].unwrap().wait,
                        self.tasks@[a].unwrap().id.0,
                    ),
            decreases MAX_TASKS - i,
        {
            proof {
                assert(self.tasks@.take(i + 1).drop_last() =~= self.tasks@.take(i as int));
            }
            match tasks[i] {
                None => {
                    free = free + 1;
                },
                Some(t) => {
                    if t.id.0 < 1 || t.id.0 > self.next_task_id {
                        return false;
                    }
                    if let Some(parent) = t.parent {
                        if parent.0 >= t.id.0 {
                            return false;
                        }
                    }
                    let refs_ok = match t.wait {
                        WaitReason::Race { left, right } => left.0 > t.id.0 && right.0 > t.id.0,
                        WaitReason::RaceOrTicks { left, right, .. } => left.0 > t.id.0 && right.0
                            > t.id.0,
                        WaitReason::Timeout { child, .. } => child.0 > t.id.0,
                        _ => true,
                    };
                    if !refs_ok {
                        return false;
                    }
                    let mut j: usize = 0;
                    while j < i
                        invariant
                            j <= i < MAX_TASKS,
                            tasks == &self.tasks,
                            self.tasks@[i as int] == Some(t),
                            forall|b: int|
                                0 <= b < j && #[trigger] self.tasks@[b] is Some ==> self.tasks@[b].unwrap().id
                                    != t.id,
                        decreases i - j,
                    {
                        if let Some(other) = tasks[j] {
                            if other.id == t.id {
                                assert(self.tasks@[j as int] is Some);
                                return false;
                            }
                        }
                        j = j + 1;
                    }
                },
            }
            i = i + 1;
        }
        proof {
            assert(self.tasks@.take(MAX_TASKS as int) =~= self.tasks@);
        }
        free <= (u32::MAX as u64) - (self.next_task_id as u64)
    }
}

impl<const MAX_TASKS: usize, const MAX_PENDING_SIGNALS: usize> Default for RuntimeSnapshot<
    MAX_TASKS,
    MAX_PENDING_SIGNALS,
> {
    fn default() -> (s: Self)
        ensures
            s == Self::spec_empty(),
    {
        Self::empty()
    }
}

// ---------------------------------------------------------------------------------------------
// Lemmas about slot sums and the measure.

pub proof fn lemma_slot_sum_update(
    tasks: Seq<Option<TaskRecord>>,
    i: int,
    x: Option<TaskRecord>,
    f: spec_fn(Option<TaskRecord>) -> nat,
)
    requires
        0 <= i < tasks.len(),
    ensures
        slot_sum(tasks.update(i, x), f) + f(tasks[i]) == slot_sum(tasks, f) + f(x),
    decreases tasks.len(),
{
    let u = tasks.update(i, x);
    if i == tasks.len() - 1 {
        assert(u.drop_last() =~= tasks.drop_last());
    } else {
        assert(u.drop_last() =~= tasks.drop_last().update(i, x));
        lemma_slot_sum_update(tasks.drop_last(), i, x, f);
    }
}

pub proof fn lemma_slot_sum_all_free(tasks: Seq<Option<TaskRecord>>)
    requires
        forall|i: int| 0 <= i < tasks.len() ==> #[trigger] tasks[i] is None,
    ensures
        free_slot_count(tasks) == tasks.len(),
    decreases tasks.len(),
{
    if tasks.len() > 0 {
        lemma_slot_sum_all_free(tasks.drop_last());
    }
}

pub proof fn lemma_slot_sum_positive(
    tasks: Seq<Option<TaskRecord>>,
    i: int,
    f: spec_fn(Option<TaskRecord>) -> nat,
)
    requires
        0 <= i < tasks.len(),
    ensures
        slot_sum(tasks, f) >= f(tasks[i]),
    decreases tasks.len(),
{
    if i < tasks.len() - 1 {
        lemma_slot_sum_positive(tasks.drop_last(), i, f);
    }
}

/// Free slots counted over a prefix.
pub proof fn lemma_free_prefix_step(tasks: Seq<Option<TaskRecord>>, n: int)
    requires
        0 <= n < tasks.len(),
    ensures
        free_slot_count(tasks.take(n + 1)) == free_slot_count(tasks.take(n)) + if tasks[n] is None {
            1nat
        } else {
            0nat
        },
{
    assert(tasks.take(n + 1).drop_last() =~= tasks.take(n));
}

pub proof fn lemma_lex_trans(a: (nat, nat), b: (nat, nat), c: (nat, nat))
    ensures
        lex_le(a, b) && lex_le(b, c) ==> lex_le(a, c),
        lex_lt(a, b) && lex_le(b, c) ==> lex_lt(a, c),
        lex_le(a, b) && lex_lt(b, c) ==> lex_lt(a, c),
{
}

pub proof fn lemma_keeps_history_trans(
    a: Seq<Option<TaskRecord>>,
    b: Seq<Option<TaskRecord>>,
    c: Seq<Option<TaskRecord>>,
)
    requires
        keeps_history(a, b),
        keeps_history(b, c),
    ensures
        keeps_history(a, c),
{
    assert forall|i: int| 0 <= i < a.len() && #[trigger] a[i] is Some implies {
        let o = a[i].unwrap();
        let n = c[i];
        &&& n is Some
        &&& n.unwrap().id == o.id
        &&& n.unwrap().program_id == o.program_id
        &&& n.unwrap().parent == o.parent
        &&& n.unwrap().scope_root == o.scope_root
        &&& (!is_running(o) ==> n == a[i])
    } by {
        assert(b[i] is Some);
    }
}

impl<const MAX_TASKS: usize, const MAX_PENDING_SIGNALS: usize> RuntimeSnapshot<
    MAX_TASKS,
    MAX_PENDING_SIGNALS,
> {
    pub proof fn lemma_evolves_refl(self, programs: Seq<Program>)
        requires
            self.wf(),
        ensures
            self.evolves_to(self, programs),
    {
    }

    pub proof fn lemma_evolves_trans(self, b: Self, c: Self, programs: Seq<Program>)
        requires
            self.evolves_to(b, programs),
            b.evolves_to(c, programs),
        ensures
            self.evolves_to(c, programs),
            lex_lt(b.measure(programs), self.measure(programs)) ==> lex_lt(
                c.measure(programs),
                self.measure(programs),
            ),
            lex_lt(c.measure(programs), b.measure(programs)) ==> lex_lt(
                c.measure(programs),
                self.measure(programs),
            ),
    {
        lemma_keeps_history_trans(self.tasks@, b.tasks@, c.tasks@);
        lemma_lex_trans(c.measure(programs), b.measure(programs), self.measure(programs));
    }
}

} // verus!
