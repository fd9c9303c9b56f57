//! What holds along any history of calls on a runtime: each call is a tick, a root spawn
//! or a queued signal.
use vstd::prelude::*;

use crate::ids::{ProgramId, SignalId};
use crate::runtime::{Runtime, RuntimeError, StepReport};
use crate::schedule::Effect;
use crate::scope::{lemma_runtime_tick_keeps_parents, lemma_signal_keeps_parents, lemma_spawn_keeps_parents, parents_run};
use crate::ids::TaskId;

verus! {

/// One call takes `a` to `b`: a tick when `is_tick`, otherwise a root spawn or a queued
/// signal (whatever each returned and, for a tick, whatever the host answered).
pub open spec fn one_call<'a, const N: usize, const S: usize>(
    a: Runtime<'a, N, S>,
    b: Runtime<'a, N, S>,
    is_tick: bool,
) -> bool {
    if is_tick {
        exists|answers: Seq<bool>, log: Seq<Effect>, r: Result<StepReport, RuntimeError>|
            #[trigger] Runtime::ticked(a, b, answers, log, r)
    } else {
        ||| exists|p: ProgramId, r: Result<TaskId, RuntimeError>| #[trigger] Runtime::spawned_root(a, b, p, r)
        ||| exists|sig: SignalId, r: Result<(), RuntimeError>| #[trigger] Runtime::queued_signal(a, b, sig, r)
    }
}

/// `rts` is a history of calls: each runtime follows from the one before by one call,
/// the calls that are ticks marked in `ticks`.
pub open spec fn history<'a, const N: usize, const S: usize>(
    rts: Seq<Runtime<'a, N, S>>,
    ticks: Seq<bool>,
) -> bool {
    &&& rts.len() == ticks.len() + 1
    &&& forall|i: int| 0 <= i < ticks.len() ==> one_call(rts[i], rts[i + 1], #[trigger] ticks[i])
}

/// How many of the calls are ticks.
pub open spec fn tick_count(ticks: Seq<bool>) -> nat
    decreases ticks.len(),
{
    if ticks.len() == 0 {
        0
    } else {
        tick_count(ticks.drop_last()) + if ticks.last() {
            1nat
        } else {
            0nat
        }
    }
}

/// `clock + n`, held at `u64::MAX`.
pub open spec fn clock_after(clock: u64, n: nat) -> u64 {
    if clock + n > u64::MAX {
        u64::MAX
    } else {
        (clock + n) as u64
    }
}

/// The clock counts ticks: along a history of calls from a well-formed runtime, the clock
/// has advanced by one for each tick, failed ones too, and for nothing else (held at
/// `u64::MAX`).
pub proof fn lemma_clock_counts_ticks<'a, const N: usize, const S: usize>(
    rts: Seq<Runtime<'a, N, S>>,
    ticks: Seq<bool>,
)
    requires
        history(rts, ticks),
        rts[0].wf(),
    ensures
        rts.last().state().clock == clock_after(rts[0].state().clock, tick_count(ticks)),
        rts.last().wf(),
    decreases ticks.len(),
{
    if ticks.len() > 0 {
        let n = ticks.len() - 1;
        let pre = rts.drop_last();
        let pt = ticks.drop_last();
        assert forall|i: int| 0 <= i < pt.len() implies one_call(pre[i], pre[i + 1], #[trigger] pt[i]) by {
            assert(one_call(rts[i], rts[i + 1], ticks[i]));
        }
        lemma_clock_counts_ticks(pre, pt);
        assert(pre.last() == rts[n]);
        assert(one_call(rts[n], rts[n + 1], ticks[n]));
        if ticks[n] {
            let (answers, log, r) = choose|answers: Seq<bool>, log: Seq<Effect>, r: Result<StepReport, RuntimeError>|
                #[trigger] Runtime::ticked(rts[n], rts[n + 1], answers, log, r);
            assert(Runtime::ticked(rts[n], rts[n + 1], answers, log, r));
        } else if exists|p: ProgramId, r: Result<TaskId, RuntimeError>| #[trigger] Runtime::spawned_root(rts[n], rts[n + 1], p, r) {
            let (p, r) = choose|p: ProgramId, r: Result<TaskId, RuntimeError>|
                #[trigger] Runtime::spawned_root(rts[n], rts[n + 1], p, r);
            assert(Runtime::spawned_root(rts[n], rts[n + 1], p, r));
        } else {
            let (sig, r) = choose|sig: SignalId, r: Result<(), RuntimeError>|
                #[trigger] Runtime::queued_signal(rts[n], rts[n + 1], sig, r);
            assert(Runtime::queued_signal(rts[n], rts[n + 1], sig, r));
        }
    }
}

/// Structured concurrency in every reachable state: along a history of calls from a
/// well-formed runtime in which every running task's present parent runs, that stays so
/// after every call (a task never outlives the scope it was spawned in).
pub proof fn lemma_history_keeps_parents<'a, const N: usize, const S: usize>(
    rts: Seq<Runtime<'a, N, S>>,
    ticks: Seq<bool>,
)
    requires
        history(rts, ticks),
        rts[0].wf(),
        parents_run(rts[0].state().tasks@),
    ensures
        forall|i: int| 0 <= i < rts.len() ==> (#[trigger] rts[i]).wf() && parents_run(rts[i].state().tasks@),
    decreases ticks.len(),
{
    if ticks.len() > 0 {
        let n = ticks.len() - 1;
        let pre = rts.drop_last();
        let pt = ticks.drop_last();
        assert forall|i: int| 0 <= i < pt.len() implies one_call(pre[i], pre[i + 1], #[trigger] pt[i]) by {
            assert(one_call(rts[i], rts[i + 1], ticks[i]));
        }
        lemma_history_keeps_parents(pre, pt);
        assert(pre.len() == n + 1);
        assert(pre[n] == rts[n]);
        assert(pre[n].wf() && parents_run(pre[n].state().tasks@));
        assert(one_call(rts[n], rts[n + 1], ticks[n]));
        if ticks[n] {
            let (answers, log, r) = choose|answers: Seq<bool>, log: Seq<Effect>, r: Result<StepReport, RuntimeError>|
                #[trigger] Runtime::ticked(rts[n], rts[n + 1], answers, log, r);
            lemma_runtime_tick_keeps_parents(rts[n], rts[n + 1], answers, log, r);
        } else if exists|p: ProgramId, r: Result<TaskId, RuntimeError>| #[trigger] Runtime::spawned_root(rts[n], rts[n + 1], p, r) {
            let (p, r) = choose|p: ProgramId, r: Result<TaskId, RuntimeError>|
                #[trigger] Runtime::spawned_root(rts[n], rts[n + 1], p, r);
            lemma_spawn_keeps_parents(rts[n], rts[n + 1], p, r);
        } else {
            let (sig, r) = choose|sig: SignalId, r: Result<(), RuntimeError>|
                #[trigger] Runtime::queued_signal(rts[n], rts[n + 1], sig, r);
            lemma_signal_keeps_parents(rts[n], rts[n + 1], sig, r);
        }
        assert forall|i: int| 0 <= i < rts.len() implies (#[trigger] rts[i]).wf() && parents_run(rts[i].state().tasks@) by {
            if i < rts.len() - 1 {
                assert(rts[i] == pre[i]);
                assert(pre[i].wf() && parents_run(pre[i].state().tasks@));
            }
        }
    }
}

} // verus!
