//! The order of a tick: rounds over the tasks by increasing id, each task woken when its
//! wait is over and run until it blocks, until a round changes nothing. The host's answers
//! (to whether a mind is active and whether a predicate holds) are the only input; what
//! the runtime asks of the host and the events it traces (its effects) are the output, in
//! order.
use vstd::prelude::*;

use crate::cancellation::cancels_exactly;
use crate::program::{find_program, Op, Program};
use crate::runtime::{
    add_capped, asks_host, current_op, executed, finished_state, run_order, wait_over, wake_target,
    finish_events, op_events, wake_run, HostRequest, Outcome, RuntimeError, StepReport, TaskRecord,
    WaitReason,
};
use crate::trace::TraceEvent;
use crate::snapshot::{op_len, slot_running, RuntimeSnapshot};

verus! {

/// The task in `slot` of `a` wakes: its wait becomes `Ready` and what the wait no longer
/// needs is cancelled (see `wake_target`); nothing else changes.
pub open spec fn woken_state<const N: usize, const S: usize>(
    a: RuntimeSnapshot<N, S>,
    b: RuntimeSnapshot<N, S>,
    slot: int,
) -> bool {
    let task = a.tasks@[slot].unwrap();
    let woken = TaskRecord { wait: WaitReason::Ready, ..task };
    &&& b.tasks@[slot] == Some(woken)
    &&& cancels_exactly(a.tasks@.update(slot, Some(woken)), b.tasks@, wake_target(a, task))
    &&& b.next_task_id == a.next_task_id
    &&& b.clock == a.clock
    &&& b.pending_signals == a.pending_signals
}

/// The wake-up check of the task in `slot` when a round reaches it. Only a running task
/// that waits is checked; for a predicate wait the host answers (the one entry of
/// `answers`), for any other the state decides (see `wait_over`). When the wait is over
/// the task wakes (`woke`); otherwise nothing changes.
pub open spec fn wake_visit<const N: usize, const S: usize>(
    a: RuntimeSnapshot<N, S>,
    b: RuntimeSnapshot<N, S>,
    slot: int,
    answers: Seq<bool>,
    woke: bool,
) -> bool {
    let t = a.tasks@[slot];
    if slot_running(t) && !(t.unwrap().wait is Ready) {
        let over = match wait_over(a, t.unwrap()) {
            Some(o) => o,
            None => answers[0],
        };
        &&& answers.len() == (if wait_over(a, t.unwrap()) is None {
            1nat
        } else {
            0nat
        })
        &&& woke == over
        &&& if over {
            &&& b.wf()
            &&& woken_state(a, b, slot)
        } else {
            b == a
        }
    } else {
        answers.len() == 0 && !woke && b == a
    }
}

/// The answers a wake-up check of `slot` in `s` takes, given whether the task woke: the
/// one answer to a predicate wait.
pub open spec fn wake_answers<const N: usize, const S: usize>(
    s: RuntimeSnapshot<N, S>,
    slot: int,
    woke: bool,
) -> Seq<bool> {
    if slot_running(s.tasks@[slot]) && s.tasks@[slot].unwrap().wait is Predicate {
        seq![woke]
    } else {
        Seq::empty()
    }
}

/// The requests a wake-up check of `slot` in `s` makes: whether the predicate holds, for a
/// running task that waits on one.
pub open spec fn wake_requests<const N: usize, const S: usize>(
    s: RuntimeSnapshot<N, S>,
    slot: int,
) -> Seq<HostRequest> {
    let t = s.tasks@[slot];
    if slot_running(t) {
        match t.unwrap().wait {
            WaitReason::Predicate(predicate) => seq![HostRequest::PredicateReady(predicate)],
            _ => Seq::empty(),
        }
    } else {
        Seq::empty()
    }
}

/// The requests executing `op` for `task` makes: its action or call, or the question
/// whether its predicate holds.
pub open spec fn op_requests(op: Op, task: TaskRecord) -> Seq<HostRequest> {
    match op {
        Op::Action(action) => seq![HostRequest::Action(task.id, action)],
        Op::Call(call) => seq![HostRequest::Call(task.id, call)],
        Op::BranchPredicate(predicate, _, _) => seq![HostRequest::PredicateReady(predicate)],
        Op::RepeatUntilPredicate(predicate, _) => seq![HostRequest::PredicateReady(predicate)],
        _ => Seq::empty(),
    }
}

/// What the runtime does outside its state, in the order it does it: a request to the
/// host, or an event handed to the trace.
#[derive(Clone, Copy, Debug, PartialEq, Eq)]
pub enum Effect {
    Request(HostRequest),
    Event(TraceEvent),
}

/// The requests among `log`, in order.
pub open spec fn host_part(log: Seq<Effect>) -> Seq<HostRequest>
    decreases log.len(),
{
    if log.len() == 0 {
        Seq::empty()
    } else {
        match log.last() {
            Effect::Request(q) => host_part(log.drop_last()).push(q),
            Effect::Event(_) => host_part(log.drop_last()),
        }
    }
}

/// The trace events among `log`, in order.
pub open spec fn trace_part(log: Seq<Effect>) -> Seq<TraceEvent>
    decreases log.len(),
{
    if log.len() == 0 {
        Seq::empty()
    } else {
        match log.last() {
            Effect::Request(_) => trace_part(log.drop_last()),
            Effect::Event(e) => trace_part(log.drop_last()).push(e),
        }
    }
}

/// `requests`, as effects.
pub open spec fn requests_of(requests: Seq<HostRequest>) -> Seq<Effect> {
    requests.map_values(|q: HostRequest| Effect::Request(q))
}

/// `events`, as effects.
pub open spec fn events_of(events: Seq<TraceEvent>) -> Seq<Effect> {
    events.map_values(|e: TraceEvent| Effect::Event(e))
}

/// Both parts are taken piece by piece.
pub proof fn lemma_parts_add(a: Seq<Effect>, b: Seq<Effect>)
    ensures
        host_part(a + b) == host_part(a) + host_part(b),
        trace_part(a + b) == trace_part(a) + trace_part(b),
        action_count(a + b) == action_count(a) + action_count(b),
    decreases b.len(),
{
    if b.len() == 0 {
        assert(a + b =~= a);
        assert(host_part(a) + Seq::<HostRequest>::empty() =~= host_part(a));
        assert(trace_part(a) + Seq::<TraceEvent>::empty() =~= trace_part(a));
    } else {
        lemma_parts_add(a, b.drop_last());
        assert((a + b).drop_last() =~= a + b.drop_last());
        assert((a + b).last() == b.last());
        match b.last() {
            Effect::Request(q) => {
                assert((host_part(a) + host_part(b.drop_last())).push(q) =~= host_part(a) + host_part(
                    b.drop_last(),
                ).push(q));
            },
            Effect::Event(e) => {
                assert((trace_part(a) + trace_part(b.drop_last())).push(e) =~= trace_part(a) + trace_part(
                    b.drop_last(),
                ).push(e));
            },
        }
    }
}

/// Requests as effects hold those requests and no event.
pub proof fn lemma_requests_parts(requests: Seq<HostRequest>)
    ensures
        host_part(requests_of(requests)) == requests,
        trace_part(requests_of(requests)) == Seq::<TraceEvent>::empty(),
        action_count(requests_of(requests)) == request_action_count(requests),
    decreases requests.len(),
{
    if requests.len() > 0 {
        lemma_requests_parts(requests.drop_last());
        assert(requests_of(requests).drop_last() =~= requests_of(requests.drop_last()));
        assert(requests.drop_last().push(requests.last()) =~= requests);
    } else {
        assert(requests_of(requests) =~= Seq::<Effect>::empty());
    }
}

/// Events as effects hold those events and no request.
pub proof fn lemma_events_parts(events: Seq<TraceEvent>)
    ensures
        host_part(events_of(events)) == Seq::<HostRequest>::empty(),
        trace_part(events_of(events)) == events,
        action_count(events_of(events)) == 0,
    decreases events.len(),
{
    if events.len() > 0 {
        lemma_events_parts(events.drop_last());
        assert(events_of(events).drop_last() =~= events_of(events.drop_last()));
        assert(events.drop_last().push(events.last()) =~= events);
    } else {
        assert(events_of(events) =~= Seq::<Effect>::empty());
    }
}

/// The number of actions requested among `log`.
pub open spec fn action_count(log: Seq<Effect>) -> nat
    decreases log.len(),
{
    if log.len() == 0 {
        0
    } else {
        action_count(log.drop_last()) + if log.last() matches Effect::Request(q) && q is Action {
            1nat
        } else {
            0nat
        }
    }
}

/// The number of actions among `requests`.
pub open spec fn request_action_count(requests: Seq<HostRequest>) -> nat
    decreases requests.len(),
{
    if requests.len() == 0 {
        0
    } else {
        request_action_count(requests.drop_last()) + if requests.last() is Action {
            1nat
        } else {
            0nat
        }
    }
}

/// What executing `op` (see `executed`) does outside the state: the requests it makes of
/// the host, then the events it traces.
pub open spec fn op_log<const N: usize, const S: usize>(
    op: Op,
    slot: int,
    task: TaskRecord,
    s: RuntimeSnapshot<N, S>,
    programs: Seq<Program>,
    answer: bool,
    r: Result<bool, RuntimeError>,
) -> Seq<Effect> {
    requests_of(op_requests(op, task)) + events_of(op_events(op, slot, task, s, programs, answer, r))
}

/// What the wake-up check of `slot` in `s` does outside the state: its question, then, when
/// the task wakes (`woke`), the events of the cancellations it makes (see `wake_run`) and
/// `TaskWoken` with the wait it had.
pub open spec fn wake_log<const N: usize, const S: usize>(
    s: RuntimeSnapshot<N, S>,
    slot: int,
    woke: bool,
) -> Seq<Effect> {
    let task = s.tasks@[slot].unwrap();
    requests_of(wake_requests(s, slot)) + if woke {
        events_of(wake_run(s, task).1.push(TraceEvent::TaskWoken { task: task.id, reason: task.wait }))
    } else {
        Seq::empty()
    }
}

/// An op's effects hold one action request when it is an `Action`.
pub proof fn lemma_op_action_count<const N: usize, const S: usize>(
    op: Op,
    slot: int,
    task: TaskRecord,
    s: RuntimeSnapshot<N, S>,
    programs: Seq<Program>,
    answer: bool,
    r: Result<bool, RuntimeError>,
)
    ensures
        action_count(op_log(op, slot, task, s, programs, answer, r)) == acted(op),
        host_part(op_log(op, slot, task, s, programs, answer, r)) == op_requests(op, task),
        trace_part(op_log(op, slot, task, s, programs, answer, r)) == op_events(op, slot, task, s, programs, answer, r),
{
    let q = op_requests(op, task);
    let e = op_events(op, slot, task, s, programs, answer, r);
    lemma_parts_add(requests_of(q), events_of(e));
    lemma_requests_parts(q);
    lemma_events_parts(e);
    reveal_with_fuel(request_action_count, 2);
    assert(q.len() == 0 || q.drop_last() =~= Seq::<HostRequest>::empty());
}

/// A wake-up check's effects: its question, its events, no action.
pub proof fn lemma_wake_log_parts<const N: usize, const S: usize>(s: RuntimeSnapshot<N, S>, slot: int, woke: bool)
    ensures
        host_part(wake_log(s, slot, woke)) == wake_requests(s, slot),
        trace_part(wake_log(s, slot, woke)) == if woke {
            wake_run(s, s.tasks@[slot].unwrap()).1.push(
                TraceEvent::TaskWoken {
                    task: s.tasks@[slot].unwrap().id,
                    reason: s.tasks@[slot].unwrap().wait,
                },
            )
        } else {
            Seq::<TraceEvent>::empty()
        },
        action_count(wake_log(s, slot, woke)) == 0,
{
    let task = s.tasks@[slot].unwrap();
    let q = wake_requests(s, slot);
    let e = if woke {
        wake_run(s, task).1.push(TraceEvent::TaskWoken { task: task.id, reason: task.wait })
    } else {
        Seq::<TraceEvent>::empty()
    };
    assert(wake_log(s, slot, woke) == requests_of(q) + events_of(e)) by {
        if !woke {
            assert(events_of(e) =~= Seq::<Effect>::empty());
        }
    }
    lemma_parts_add(requests_of(q), events_of(e));
    lemma_requests_parts(q);
    lemma_events_parts(e);
    reveal_with_fuel(request_action_count, 2);
    assert(q.len() == 0 || q.drop_last() =~= Seq::<HostRequest>::empty());
}

/// The answers the op `op` takes: one when it asks the host.
pub open spec fn asked(op: Op) -> nat {
    if asks_host(op) {
        1
    } else {
        0
    }
}

/// Actions the op `op` emits: one for an `Action`.
pub open spec fn acted(op: Op) -> nat {
    if op is Action {
        1
    } else {
        0
    }
}

/// `n` op steps of the ready task in `slot`, from `a` to `b`, each of which lets the task
/// go on at once; `answers` are the host's answers to the questions the ops asked and
/// `requests` what the ops asked of the host, in order.
pub open spec fn ran_on<const N: usize, const S: usize>(
    a: RuntimeSnapshot<N, S>,
    b: RuntimeSnapshot<N, S>,
    programs: Seq<Program>,
    slot: int,
    answers: Seq<bool>,
    n: nat,
    requests: Seq<Effect>,
) -> bool
    decreases n,
{
    if n == 0 {
        b == a && answers.len() == 0 && requests.len() == 0
    } else {
        let task = a.tasks@[slot].unwrap();
        let op = current_op(programs, task);
        let q = op_log(op, slot, task, a, programs, answers[0], Ok::<bool, RuntimeError>(true));
        &&& (task.ip as nat) < op_len(programs, task.program_id)
        &&& asked(op) <= answers.len()
        &&& q.len() <= requests.len()
        &&& requests.take(q.len() as int) == q
        &&& exists|mid: RuntimeSnapshot<N, S>|
            #[trigger] executed(op, slot, task, a, mid, programs, Ok::<bool, RuntimeError>(true), answers[0])
                && mid.wf() && ran_on(
                mid,
                b,
                programs,
                slot,
                answers.skip(asked(op) as int),
                (n - 1) as nat,
                requests.skip(q.len() as int),
            )
    }
}

/// The last step of a run of the ready task in `slot`: past its last op the task
/// succeeds; otherwise its op makes it wait, change mind or finish, or fails with `r`.
pub open spec fn run_ends<const N: usize, const S: usize>(
    a: RuntimeSnapshot<N, S>,
    b: RuntimeSnapshot<N, S>,
    programs: Seq<Program>,
    slot: int,
    answers: Seq<bool>,
    requests: Seq<Effect>,
    r: Result<(), RuntimeError>,
) -> bool {
    let task = a.tasks@[slot].unwrap();
    &&& b.wf()
    &&& if (task.ip as nat) >= op_len(programs, task.program_id) {
        &&& answers.len() == 0
        &&& requests == events_of(finish_events(a, slot, task, Outcome::Succeeded))
        &&& r == Ok::<(), RuntimeError>(())
        &&& finished_state(a, b, slot, task, Outcome::Succeeded)
    } else {
        let op = current_op(programs, task);
        &&& answers.len() == asked(op)
        &&& exists|res: Result<bool, RuntimeError>|
            #[trigger] executed(op, slot, task, a, b, programs, res, answers[0]) && requests == op_log(
                op,
                slot,
                task,
                a,
                programs,
                answers[0],
                res,
            ) && match res {
                Ok(go_on) => !go_on && r == Ok::<(), RuntimeError>(()),
                Err(e) => r == Err::<(), RuntimeError>(e),
            }
    }
}

/// The run of the task in `slot` when a round reaches it. Only a running, ready task
/// runs: the host is first asked whether its mind is active (the first request and
/// answer); if so, it fails with `ProgramNotFound` when its program is missing, and
/// otherwise runs op after op while each lets it go on, then takes a last step (`ran`: it
/// took steps and none failed).
pub open spec fn run_visit<const N: usize, const S: usize>(
    a: RuntimeSnapshot<N, S>,
    b: RuntimeSnapshot<N, S>,
    programs: Seq<Program>,
    slot: int,
    answers: Seq<bool>,
    requests: Seq<Effect>,
    ran: bool,
    r: Result<(), RuntimeError>,
) -> bool {
    let t = a.tasks@[slot];
    if slot_running(t) && t.unwrap().wait is Ready {
        &&& answers.len() >= 1
        &&& requests.len() >= 1
        &&& requests[0] == Effect::Request(HostRequest::MindActive(t.unwrap().mind_id))
        &&& if !answers[0] {
            answers.len() == 1 && requests.len() == 1 && b == a && !ran && r == Ok::<(), RuntimeError>(())
        } else if find_program(programs, t.unwrap().program_id) is None {
            &&& answers.len() == 1
            &&& requests.len() == 1
            &&& b == a
            &&& !ran
            &&& r == Err::<(), RuntimeError>(RuntimeError::ProgramNotFound(t.unwrap().program_id))
        } else {
            &&& ran == r is Ok
            &&& exists|m: RuntimeSnapshot<N, S>, n: nat, a1: Seq<bool>, q1: Seq<Effect>|
                #[trigger] ran_on(a, m, programs, slot, a1, n, q1) && a1.len() <= answers.len() - 1
                    && answers.skip(1).take(a1.len() as int) == a1 && q1.len() <= requests.len() - 1
                    && requests.skip(1).take(q1.len() as int) == q1 && run_ends(
                    m,
                    b,
                    programs,
                    slot,
                    answers.skip(1 + a1.len() as int),
                    requests.skip(1 + q1.len() as int),
                    r,
                )
        }
    } else {
        answers.len() == 0 && requests.len() == 0 && b == a && !ran && r == Ok::<(), RuntimeError>(())
    }
}

/// What a `bool` result of a run is, once the bool is dropped.
pub open spec fn unit_result(r: Result<bool, RuntimeError>) -> Result<(), RuntimeError> {
    match r {
        Ok(_) => Ok(()),
        Err(e) => Err(e),
    }
}

/// A run result that says the task took steps.
pub open spec fn took_steps(r: Result<bool, RuntimeError>) -> bool {
    r == Ok::<bool, RuntimeError>(true)
}

/// The answers executing `op` takes, when the host answered `answer`.
pub open spec fn asked_seq(op: Op, answer: bool) -> Seq<bool> {
    if asks_host(op) {
        seq![answer]
    } else {
        Seq::empty()
    }
}

/// An op that asks the host nothing does the same whatever is passed as the answer.
pub proof fn lemma_executed_ignores_answer<const N: usize, const S: usize>(
    op: Op,
    slot: int,
    task: TaskRecord,
    a: RuntimeSnapshot<N, S>,
    b: RuntimeSnapshot<N, S>,
    programs: Seq<Program>,
    r: Result<bool, RuntimeError>,
    x: bool,
    y: bool,
)
    requires
        !asks_host(op),
    ensures
        executed(op, slot, task, a, b, programs, r, x) == executed(op, slot, task, a, b, programs, r, y),
{
}

/// An op that asks the host nothing has the same effects whatever is passed as the answer.
pub proof fn lemma_op_log_ignores_answer<const N: usize, const S: usize>(
    op: Op,
    slot: int,
    task: TaskRecord,
    s: RuntimeSnapshot<N, S>,
    programs: Seq<Program>,
    x: bool,
    y: bool,
    r: Result<bool, RuntimeError>,
)
    requires
        !asks_host(op),
    ensures
        op_log(op, slot, task, s, programs, x, r) == op_log(op, slot, task, s, programs, y, r),
{
    assert(op_events(op, slot, task, s, programs, x, r) == op_events(op, slot, task, s, programs, y, r));
}

/// A run that goes on by one more step that lets the task go on.
pub proof fn lemma_ran_on_extend<const N: usize, const S: usize>(
    a: RuntimeSnapshot<N, S>,
    m: RuntimeSnapshot<N, S>,
    b: RuntimeSnapshot<N, S>,
    programs: Seq<Program>,
    slot: int,
    answers: Seq<bool>,
    n: nat,
    requests: Seq<Effect>,
    answer: bool,
)
    requires
        ran_on(a, m, programs, slot, answers, n, requests),
        (m.tasks@[slot].unwrap().ip as nat) < op_len(programs, m.tasks@[slot].unwrap().program_id),
        executed(
            current_op(programs, m.tasks@[slot].unwrap()),
            slot,
            m.tasks@[slot].unwrap(),
            m,
            b,
            programs,
            Ok::<bool, RuntimeError>(true),
            answer,
        ),
        b.wf(),
    ensures
        ran_on(
            a,
            b,
            programs,
            slot,
            answers + asked_seq(current_op(programs, m.tasks@[slot].unwrap()), answer),
            n + 1,
            requests + op_log(
                current_op(programs, m.tasks@[slot].unwrap()),
                slot,
                m.tasks@[slot].unwrap(),
                m,
                programs,
                answer,
                Ok::<bool, RuntimeError>(true),
            ),
        ),
    decreases n,
{
    let op = current_op(programs, m.tasks@[slot].unwrap());
    let extra = asked_seq(op, answer);
    let more = op_log(op, slot, m.tasks@[slot].unwrap(), m, programs, answer, Ok::<bool, RuntimeError>(true));
    if n == 0 {
        assert(m == a);
        assert(answers.len() == 0);
        assert(answers + extra =~= extra);
        assert(requests + more =~= more);
        assert(extra.skip(asked(op) as int) =~= Seq::<bool>::empty());
        assert(more.skip(more.len() as int) =~= Seq::<Effect>::empty());
        assert(more.take(more.len() as int) =~= more);
        assert(ran_on(b, b, programs, slot, Seq::<bool>::empty(), 0, Seq::<Effect>::empty()));
        if !asks_host(op) {
            lemma_op_log_ignores_answer(op, slot, m.tasks@[slot].unwrap(), m, programs, answer, extra[0], Ok::<bool, RuntimeError>(true));
            lemma_executed_ignores_answer(
                op,
                slot,
                m.tasks@[slot].unwrap(),
                m,
                b,
                programs,
                Ok::<bool, RuntimeError>(true),
                answer,
                extra[0],
            );
        }
        assert(executed(op, slot, a.tasks@[slot].unwrap(), a, b, programs, Ok::<bool, RuntimeError>(true), extra[0]));
    } else {
        let task = a.tasks@[slot].unwrap();
        let op0 = current_op(programs, task);
        let k = asked(op0);
        let q0 = op_log(op0, slot, task, a, programs, answers[0], Ok::<bool, RuntimeError>(true));
        let mid = choose|mid: RuntimeSnapshot<N, S>|
            #[trigger] executed(op0, slot, task, a, mid, programs, Ok::<bool, RuntimeError>(true), answers[0])
                && mid.wf() && ran_on(
                mid,
                m,
                programs,
                slot,
                answers.skip(k as int),
                (n - 1) as nat,
                requests.skip(q0.len() as int),
            );
        lemma_ran_on_extend(
            mid,
            m,
            b,
            programs,
            slot,
            answers.skip(k as int),
            (n - 1) as nat,
            requests.skip(q0.len() as int),
            answer,
        );
        assert((answers + extra).skip(k as int) =~= answers.skip(k as int) + extra);
        assert((requests + more).skip(q0.len() as int) =~= requests.skip(q0.len() as int) + more);
        assert((requests + more).take(q0.len() as int) =~= requests.take(q0.len() as int));
        if answers.len() > 0 {
            assert((answers + extra)[0] == answers[0]);
        } else {
            lemma_op_log_ignores_answer(op0, slot, task, a, programs, answers[0], (answers + extra)[0], Ok::<bool, RuntimeError>(true));
            lemma_executed_ignores_answer(
                op0,
                slot,
                task,
                a,
                mid,
                programs,
                Ok::<bool, RuntimeError>(true),
                answers[0],
                (answers + extra)[0],
            );
        }
        assert(executed(op0, slot, task, a, mid, programs, Ok::<bool, RuntimeError>(true), (answers + extra)[0]));
        assert(((n + 1) - 1) as nat == n);
    }
}

/// A run whose mind check said yes: steps that let the task go on, then a last step.
pub proof fn lemma_run_visit_done<const N: usize, const S: usize>(
    a: RuntimeSnapshot<N, S>,
    m: RuntimeSnapshot<N, S>,
    b: RuntimeSnapshot<N, S>,
    programs: Seq<Program>,
    slot: int,
    steps: Seq<bool>,
    n: nat,
    x: Seq<Effect>,
    last: Seq<bool>,
    y: Seq<Effect>,
    r: Result<(), RuntimeError>,
    res: Result<bool, RuntimeError>,
)
    requires
        r == unit_result(res),
        res is Ok ==> res == Ok::<bool, RuntimeError>(true),
        slot_running(a.tasks@[slot]),
        a.tasks@[slot].unwrap().wait is Ready,
        find_program(programs, a.tasks@[slot].unwrap().program_id) is Some,
        ran_on(a, m, programs, slot, steps, n, x),
        run_ends(m, b, programs, slot, last, y, r),
    ensures
        run_visit(
            a,
            b,
            programs,
            slot,
            seq![true] + steps + last,
            seq![Effect::Request(HostRequest::MindActive(a.tasks@[slot].unwrap().mind_id))] + x + y,
            took_steps(res),
            unit_result(res),
        ),
{
    let answers = seq![true] + steps + last;
    let requests = seq![Effect::Request(HostRequest::MindActive(a.tasks@[slot].unwrap().mind_id))] + x + y;
    assert(answers.skip(1).take(steps.len() as int) =~= steps);
    assert(answers.skip(1 + steps.len() as int) =~= last);
    assert(requests.skip(1).take(x.len() as int) =~= x);
    assert(requests.skip(1 + x.len() as int) =~= y);
    assert(requests[0] == Effect::Request(HostRequest::MindActive(a.tasks@[slot].unwrap().mind_id)));
    assert(ran_on(a, m, programs, slot, steps, n, x) && steps.len() <= answers.len() - 1
        && answers.skip(1).take(steps.len() as int) == steps && x.len() <= requests.len() - 1
        && requests.skip(1).take(x.len() as int) == x && run_ends(
        m,
        b,
        programs,
        slot,
        answers.skip(1 + steps.len() as int),
        requests.skip(1 + x.len() as int),
        r,
    ));
}

/// One visit of the task in `slot` by a round: its wake-up check, then its run, with the
/// host's `answers` to both and the `requests` both made, in order.
#[verifier::opaque]
pub open spec fn visit<const N: usize, const S: usize>(
    a: RuntimeSnapshot<N, S>,
    b: RuntimeSnapshot<N, S>,
    programs: Seq<Program>,
    slot: int,
    answers: Seq<bool>,
    requests: Seq<Effect>,
    r: Result<(), RuntimeError>,
) -> bool {
    exists|m: RuntimeSnapshot<N, S>, woke: bool|
        #[trigger] wake_visit(a, m, slot, wake_answers(a, slot, woke), woke) && wake_answers(
            a,
            slot,
            woke,
        ).len() <= answers.len() && answers.take(wake_answers(a, slot, woke).len() as int)
            == wake_answers(a, slot, woke) && wake_log(a, slot, woke).len() <= requests.len() && requests.take(
            wake_log(a, slot, woke).len() as int,
        ) == wake_log(a, slot, woke) && exists|ran: bool|
            #[trigger] run_visit(
                m,
                b,
                programs,
                slot,
                answers.skip(wake_answers(a, slot, woke).len() as int),
                requests.skip(wake_log(a, slot, woke).len() as int),
                ran,
                r,
            )
}

/// The first `c` positions of a round's `order` visited from `a` to `b`, none failing:
/// each position holding a slot visits it (see `visit`).
pub open spec fn round_upto<const N: usize, const S: usize>(
    a: RuntimeSnapshot<N, S>,
    b: RuntimeSnapshot<N, S>,
    programs: Seq<Program>,
    order: Seq<Option<usize>>,
    c: nat,
    answers: Seq<bool>,
    requests: Seq<Effect>,
) -> bool
    decreases c,
{
    if c == 0 {
        b == a && answers.len() == 0 && requests.len() == 0
    } else if order[c - 1] is None {
        round_upto(a, b, programs, order, (c - 1) as nat, answers, requests)
    } else {
        exists|m: RuntimeSnapshot<N, S>, j: nat, i: nat, r2: Result<(), RuntimeError>, slot: usize|
            #[trigger] visit(m, b, programs, slot as int, answers.skip(j as int), requests.skip(i as int), r2)
                && order[c - 1] == Some(slot) && r2 is Ok && j <= answers.len() && i <= requests.len()
                && round_upto(a, m, programs, order, (c - 1) as nat, answers.take(j as int), requests.take(i as int))
    }
}

/// A round over `order` that fails with `e`: the visits before some position succeed and
/// the visit at that position fails.
pub open spec fn round_failed<const N: usize, const S: usize>(
    a: RuntimeSnapshot<N, S>,
    b: RuntimeSnapshot<N, S>,
    programs: Seq<Program>,
    order: Seq<Option<usize>>,
    answers: Seq<bool>,
    requests: Seq<Effect>,
    e: RuntimeError,
) -> bool {
    exists|c: nat, m: RuntimeSnapshot<N, S>, j: nat, i: nat|
        #[trigger] round_upto(a, m, programs, order, c, answers.take(j as int), requests.take(i as int))
            && c < order.len() && j <= answers.len() && i <= requests.len() && order[c as int] is Some
            && visit(
            m,
            b,
            programs,
            order[c as int].unwrap() as int,
            answers.skip(j as int),
            requests.skip(i as int),
            Err(e),
        )
}

/// `k` rounds from `a` to `b` that each changed the state: each visits the slots occupied
/// when it starts, by increasing task id (see `run_order`).
pub open spec fn busy_rounds<const N: usize, const S: usize>(
    a: RuntimeSnapshot<N, S>,
    b: RuntimeSnapshot<N, S>,
    programs: Seq<Program>,
    k: nat,
    answers: Seq<bool>,
    requests: Seq<Effect>,
) -> bool
    decreases k,
{
    if k == 0 {
        b == a && answers.len() == 0 && requests.len() == 0
    } else {
        exists|m: RuntimeSnapshot<N, S>, j: nat, i: nat, order: Seq<Option<usize>>|
            #[trigger] round_upto(m, b, programs, order, N as nat, answers.skip(j as int), requests.skip(i as int))
                && run_order(m.tasks@, order) && b != m && j <= answers.len() && i <= requests.len()
                && busy_rounds(a, m, programs, (k - 1) as nat, answers.take(j as int), requests.take(i as int))
    }
}

/// A tick from `old_s` to `new_s`, the host answering `answers` in order to the questions
/// among `requests`, the requests the tick made of it: the clock advances by one
/// (saturating); then rounds run while they change the state, the tick failing at the
/// first failed visit. On success the signal queue is emptied and the report gives the
/// clock, the actions requested (held at `usize::MAX`) and whether a round changed the
/// state.
pub open spec fn tick_run<const N: usize, const S: usize>(
    old_s: RuntimeSnapshot<N, S>,
    new_s: RuntimeSnapshot<N, S>,
    programs: Seq<Program>,
    answers: Seq<bool>,
    requests: Seq<Effect>,
    r: Result<StepReport, RuntimeError>,
) -> bool {
    let start = RuntimeSnapshot { clock: old_s.clock.saturating_add(1), ..old_s };
    exists|k: nat, m: RuntimeSnapshot<N, S>, j: nat, i: nat|
        #[trigger] busy_rounds(start, m, programs, k, answers.take(j as int), requests.take(i as int))
            && j <= answers.len() && i <= requests.len() && exists|order: Seq<Option<usize>>|
            #[trigger] run_order(m.tasks@, order) && match r {
                Ok(report) => round_upto(m, m, programs, order, N as nat, answers.skip(j as int), requests.skip(i as int))
                    && RuntimeSnapshot { pending_signals: old_s.pending_signals, ..new_s } == m
                    && (forall|x: int| 0 <= x < S ==> #[trigger] new_s.pending_signals@[x] is None)
                    && report == StepReport {
                    clock: new_s.clock,
                    actions_emitted: add_capped(0, action_count(requests)),
                    progress_made: k > 0,
                },
                Err(e) => round_failed(m, new_s, programs, order, answers.skip(j as int), requests.skip(i as int), e),
            }
}

/// A round that goes on by the visit of the slot at position `c`.
pub proof fn lemma_round_visit<const N: usize, const S: usize>(
    rs: RuntimeSnapshot<N, S>,
    before: RuntimeSnapshot<N, S>,
    mid: RuntimeSnapshot<N, S>,
    after: RuntimeSnapshot<N, S>,
    programs: Seq<Program>,
    order: Seq<Option<usize>>,
    c: nat,
    answers: Seq<bool>,
    requests: Seq<Effect>,
    slot: usize,
    woke: bool,
    u: Seq<bool>,
    x: Seq<Effect>,
    ran: bool,
    r: Result<(), RuntimeError>,
)
    requires
        round_upto(rs, before, programs, order, c, answers, requests),
        c < order.len(),
        order[c as int] == Some(slot),
        wake_visit(before, mid, slot as int, wake_answers(before, slot as int, woke), woke),
        run_visit(mid, after, programs, slot as int, u, x, ran, r),
    ensures
        r is Ok ==> round_upto(
            rs,
            after,
            programs,
            order,
            c + 1,
            answers + (wake_answers(before, slot as int, woke) + u),
            requests + (wake_log(before, slot as int, woke) + x),
        ),
        r matches Err(e) ==> round_failed(
            rs,
            after,
            programs,
            order,
            answers + (wake_answers(before, slot as int, woke) + u),
            requests + (wake_log(before, slot as int, woke) + x),
            e,
        ),
{
    let w = wake_answers(before, slot as int, woke);
    let v = w + u;
    let q = wake_log(before, slot as int, woke) + x;
    lemma_visit_of(before, mid, after, programs, slot as int, woke, u, x, ran, r);
    let all = answers + v;
    let allq = requests + q;
    assert(all.take(answers.len() as int) =~= answers);
    assert(all.skip(answers.len() as int) =~= v);
    assert(allq.take(requests.len() as int) =~= requests);
    assert(allq.skip(requests.len() as int) =~= q);
    if r is Ok {
        assert(((c + 1) - 1) as nat == c);
        assert(round_upto(rs, before, programs, order, c, all.take(answers.len() as int), allq.take(requests.len() as int)));
        assert(visit(
            before,
            after,
            programs,
            slot as int,
            all.skip(answers.len() as int),
            allq.skip(requests.len() as int),
            r,
        ));
    } else {
        let e = r->Err_0;
        assert(round_upto(rs, before, programs, order, c, all.take(answers.len() as int), allq.take(requests.len() as int)));
        assert(visit(
            before,
            after,
            programs,
            order[c as int].unwrap() as int,
            all.skip(answers.len() as int),
            allq.skip(requests.len() as int),
            Err(e),
        ));
    }
}

/// The wake-up check and the run of a slot make its visit.
pub proof fn lemma_visit_of<const N: usize, const S: usize>(
    before: RuntimeSnapshot<N, S>,
    mid: RuntimeSnapshot<N, S>,
    after: RuntimeSnapshot<N, S>,
    programs: Seq<Program>,
    slot: int,
    woke: bool,
    u: Seq<bool>,
    x: Seq<Effect>,
    ran: bool,
    r: Result<(), RuntimeError>,
)
    requires
        wake_visit(before, mid, slot, wake_answers(before, slot, woke), woke),
        run_visit(mid, after, programs, slot, u, x, ran, r),
    ensures
        visit(before, after, programs, slot, wake_answers(before, slot, woke) + u, wake_log(before, slot, woke) + x, r),
{
    reveal(visit);
    let w = wake_answers(before, slot, woke);
    let wr = wake_log(before, slot, woke);
    let v = w + u;
    let q = wr + x;
    assert(v.take(w.len() as int) =~= w);
    assert(v.skip(w.len() as int) =~= u);
    assert(q.take(wr.len() as int) =~= wr);
    assert(q.skip(wr.len() as int) =~= x);
    assert(run_visit(mid, after, programs, slot, v.skip(w.len() as int), q.skip(wr.len() as int), ran, r));
}

/// A round that goes on past a position without a slot.
pub proof fn lemma_round_skip<const N: usize, const S: usize>(
    rs: RuntimeSnapshot<N, S>,
    before: RuntimeSnapshot<N, S>,
    programs: Seq<Program>,
    order: Seq<Option<usize>>,
    c: nat,
    answers: Seq<bool>,
    requests: Seq<Effect>,
)
    requires
        round_upto(rs, before, programs, order, c, answers, requests),
        c < order.len(),
        order[c as int] is None,
    ensures
        round_upto(rs, before, programs, order, c + 1, answers, requests),
{
    assert(((c + 1) - 1) as nat == c);
}

/// Busy rounds followed by one more round that changed the state.
pub proof fn lemma_busy_rounds_extend<const N: usize, const S: usize>(
    a: RuntimeSnapshot<N, S>,
    rs: RuntimeSnapshot<N, S>,
    b: RuntimeSnapshot<N, S>,
    programs: Seq<Program>,
    k: nat,
    answers: Seq<bool>,
    requests: Seq<Effect>,
    order: Seq<Option<usize>>,
    more: Seq<bool>,
    x: Seq<Effect>,
)
    requires
        busy_rounds(a, rs, programs, k, answers, requests),
        run_order(rs.tasks@, order),
        round_upto(rs, b, programs, order, N as nat, more, x),
        b != rs,
    ensures
        busy_rounds(a, b, programs, k + 1, answers + more, requests + x),
{
    let all = answers + more;
    let allq = requests + x;
    assert(all.take(answers.len() as int) =~= answers);
    assert(all.skip(answers.len() as int) =~= more);
    assert(allq.take(requests.len() as int) =~= requests);
    assert(allq.skip(requests.len() as int) =~= x);
    assert(((k + 1) - 1) as nat == k);
    assert(round_upto(rs, b, programs, order, N as nat, all.skip(answers.len() as int), allq.skip(requests.len() as int)));
}

/// A tick whose last round changed nothing.
pub proof fn lemma_tick_done<const N: usize, const S: usize>(
    old_s: RuntimeSnapshot<N, S>,
    rs: RuntimeSnapshot<N, S>,
    new_s: RuntimeSnapshot<N, S>,
    programs: Seq<Program>,
    k: nat,
    answers: Seq<bool>,
    requests: Seq<Effect>,
    order: Seq<Option<usize>>,
    more: Seq<bool>,
    x: Seq<Effect>,
)
    requires
        busy_rounds(
            (RuntimeSnapshot { clock: old_s.clock.saturating_add(1), ..old_s }),
            rs,
            programs,
            k,
            answers,
            requests,
        ),
        run_order(rs.tasks@, order),
        round_upto(rs, rs, programs, order, N as nat, more, x),
        (RuntimeSnapshot { pending_signals: old_s.pending_signals, ..new_s }) == rs,
        forall|i: int| 0 <= i < S ==> #[trigger] new_s.pending_signals@[i] is None,
    ensures
        tick_run(
            old_s,
            new_s,
            programs,
            answers + more,
            requests + x,
            Ok(
                StepReport {
                    clock: new_s.clock,
                    actions_emitted: add_capped(0, action_count(requests + x)),
                    progress_made: k > 0,
                },
            ),
        ),
{
    let all = answers + more;
    let allq = requests + x;
    let start = RuntimeSnapshot { clock: old_s.clock.saturating_add(1), ..old_s };
    assert(all.take(answers.len() as int) =~= answers);
    assert(all.skip(answers.len() as int) =~= more);
    assert(allq.take(requests.len() as int) =~= requests);
    assert(allq.skip(requests.len() as int) =~= x);
    assert(busy_rounds(start, rs, programs, k, all.take(answers.len() as int), allq.take(requests.len() as int)));
    assert(run_order(rs.tasks@, order));
    assert(round_upto(rs, rs, programs, order, N as nat, all.skip(answers.len() as int), allq.skip(requests.len() as int)));
}

/// A tick whose last round failed.
pub proof fn lemma_tick_failed<const N: usize, const S: usize>(
    old_s: RuntimeSnapshot<N, S>,
    rs: RuntimeSnapshot<N, S>,
    new_s: RuntimeSnapshot<N, S>,
    programs: Seq<Program>,
    k: nat,
    answers: Seq<bool>,
    requests: Seq<Effect>,
    order: Seq<Option<usize>>,
    more: Seq<bool>,
    x: Seq<Effect>,
    e: RuntimeError,
)
    requires
        busy_rounds(
            (RuntimeSnapshot { clock: old_s.clock.saturating_add(1), ..old_s }),
            rs,
            programs,
            k,
            answers,
            requests,
        ),
        run_order(rs.tasks@, order),
        round_failed(rs, new_s, programs, order, more, x, e),
    ensures
        tick_run(old_s, new_s, programs, answers + more, requests + x, Err(e)),
{
    let all = answers + more;
    let allq = requests + x;
    let start = RuntimeSnapshot { clock: old_s.clock.saturating_add(1), ..old_s };
    assert(all.take(answers.len() as int) =~= answers);
    assert(all.skip(answers.len() as int) =~= more);
    assert(allq.take(requests.len() as int) =~= requests);
    assert(allq.skip(requests.len() as int) =~= x);
    assert(busy_rounds(start, rs, programs, k, all.take(answers.len() as int), allq.take(requests.len() as int)));
    assert(run_order(rs.tasks@, order));
    assert(round_failed(rs, new_s, programs, order, all.skip(answers.len() as int), allq.skip(requests.len() as int), e));
}

} // verus!
