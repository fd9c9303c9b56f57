//! A trace sink that keeps every event and renders them as text, one line per event.
use vstd::prelude::*;
use vstd::string::StringExecFns;

use crate::ids::TaskId;
use crate::runtime::{Outcome, WaitReason};
use crate::trace::{TraceEvent, TraceSink};

verus! {

/// The character of a decimal digit.
pub open spec fn digit_char(d: nat) -> char {
    if d == 0 {
        '0'
    } else if d == 1 {
        '1'
    } else if d == 2 {
        '2'
    } else if d == 3 {
        '3'
    } else if d == 4 {
        '4'
    } else if d == 5 {
        '5'
    } else if d == 6 {
        '6'
    } else if d == 7 {
        '7'
    } else if d == 8 {
        '8'
    } else {
        '9'
    }
}

/// The decimal digits of `n`, most significant first, without leading zeros.
pub open spec fn decimal(n: nat) -> Seq<char>
    decreases n,
{
    if n < 10 {
        seq![digit_char(n)]
    } else {
        decimal(n / 10) + seq![digit_char(n % 10)]
    }
}

/// How a wait reason is written in a trace line.
pub open spec fn wait_text(reason: WaitReason) -> Seq<char> {
    match reason {
        WaitReason::Ready => "ready"@,
        WaitReason::Ticks { until_tick } => "ticks:"@ + decimal(until_tick as nat),
        WaitReason::Signal(signal) => "signal:"@ + decimal(signal.0 as nat),
        WaitReason::Predicate(predicate) => "predicate:"@ + decimal(predicate.0 as nat),
        WaitReason::SignalOrTicks { signal, until_tick } => "signal_or_ticks:"@ + decimal(
            signal.0 as nat,
        ) + ":"@ + decimal(until_tick as nat),
        WaitReason::RaceOrTicks { left, right, until_tick } => "race_or_ticks:"@ + decimal(
            left.0 as nat,
        ) + ":"@ + decimal(right.0 as nat) + ":"@ + decimal(until_tick as nat),
        WaitReason::Timeout { child, until_tick } => "timeout:"@ + decimal(child.0 as nat)
            + ":"@ + decimal(until_tick as nat),
        WaitReason::RepeatUntilPredicate { predicate, resume_at_tick } => "repeat_until_predicate:"@
            + decimal(predicate.0 as nat) + ":"@ + decimal(resume_at_tick as nat),
        WaitReason::ChildrenAll => "children_all"@,
        WaitReason::ChildrenAny => "children_any"@,
        WaitReason::Race { left, right } => "race:"@ + decimal(left.0 as nat) + ":"@ + decimal(
            right.0 as nat,
        ),
    }
}

/// How an outcome is written in a trace line.
pub open spec fn outcome_text(outcome: Outcome) -> Seq<char> {
    match outcome {
        Outcome::Running => "Running"@,
        Outcome::Succeeded => "Succeeded"@,
        Outcome::Failed => "Failed"@,
        Outcome::Cancelled => "Cancelled"@,
    }
}

/// The text line of one trace event.
pub open spec fn event_line(event: TraceEvent) -> Seq<char> {
    match event {
        TraceEvent::TickStarted { clock } => "tick_started clock="@ + decimal(clock as nat),
        TraceEvent::TickCompleted { report } => "tick_completed clock="@ + decimal(
            report.clock as nat,
        ) + " actions="@ + decimal(report.actions_emitted as nat) + " progress="@ + (
        if report.progress_made {
            "true"@
        } else {
            "false"@
        }),
        TraceEvent::SignalQueued { signal } => "signal_queued signal="@ + decimal(signal.0 as nat),
        TraceEvent::TaskSpawned { task, program_id, parent, scope_root } => match parent {
            Some(parent) => "task_spawned task="@ + decimal(task.0 as nat) + " program="@ + decimal(
                program_id.0 as nat,
            ) + " parent="@ + decimal(parent.0 as nat) + " scope_root="@ + decimal(
                scope_root.0 as nat,
            ),
            None => "task_spawned task="@ + decimal(task.0 as nat) + " program="@ + decimal(
                program_id.0 as nat,
            ) + " parent=root scope_root="@ + decimal(scope_root.0 as nat),
        },
        TraceEvent::TaskWaiting { task, reason } => "task_waiting task="@ + decimal(task.0 as nat)
            + " reason="@ + wait_text(reason),
        TraceEvent::TaskWoken { task, reason } => "task_woken task="@ + decimal(task.0 as nat)
            + " reason="@ + wait_text(reason),
        TraceEvent::ActionEmitted { task, action } => "action_emitted task="@ + decimal(
            task.0 as nat,
        ) + " action="@ + decimal(action.0 as nat),
        TraceEvent::CallEmitted { task, call } => "call_emitted task="@ + decimal(task.0 as nat)
            + " call="@ + decimal(call.id.0 as nat),
        TraceEvent::TaskMindChanged { task, from, to } => "task_mind_changed task="@ + decimal(
            task.0 as nat,
        ) + " from="@ + decimal(from.0 as nat) + " to="@ + decimal(to.0 as nat),
        TraceEvent::TaskFinished { task, outcome } => "task_finished task="@ + decimal(
            task.0 as nat,
        ) + " outcome="@ + outcome_text(outcome),
    }
}

/// The lines of `events`, joined by newlines.
pub open spec fn rendered(events: Seq<TraceEvent>) -> Seq<char>
    decreases events.len(),
{
    if events.len() == 0 {
        Seq::empty()
    } else if events.len() == 1 {
        event_line(events[0])
    } else {
        rendered(events.drop_last()) + "\n"@ + event_line(events.last())
    }
}

fn digit_str(d: u64) -> (s: &'static str)
    requires
        d < 10,
    ensures
        s@ == seq![digit_char(d as nat)],
{
    if d == 0 {
        proof {
            reveal_strlit("0");
        }
        "0"
    } else if d == 1 {
        proof {
            reveal_strlit("1");
        }
        "1"
    } else if d == 2 {
        proof {
            reveal_strlit("2");
        }
        "2"
    } else if d == 3 {
        proof {
            reveal_strlit("3");
        }
        "3"
    } else if d == 4 {
        proof {
            reveal_strlit("4");
        }
        "4"
    } else if d == 5 {
        proof {
            reveal_strlit("5");
        }
        "5"
    } else if d == 6 {
        proof {
            reveal_strlit("6");
        }
        "6"
    } else if d == 7 {
        proof {
            reveal_strlit("7");
        }
        "7"
    } else if d == 8 {
        proof {
            reveal_strlit("8");
        }
        "8"
    } else {
        proof {
            reveal_strlit("9");
        }
        "9"
    }
}

/// Appends the decimal digits of `n`.
pub fn push_decimal(out: &mut String, n: u64)
    ensures
        final(out)@ == old(out)@ + decimal(n as nat),
    decreases n,
{
    if n >= 10 {
        push_decimal(out, n / 10);
        out.append(digit_str(n % 10));
        proof {
            assert(out@ =~= old(out)@ + decimal(n as nat));
        }
    } else {
        out.append(digit_str(n));
    }
}

fn render_wait_reason(out: &mut String, reason: WaitReason)
    ensures
        final(out)@ == old(out)@ + wait_text(reason),
{
    let ghost start = out@;
    match reason {
        WaitReason::Ready => out.append("ready"),
        WaitReason::Ticks { until_tick } => {
            out.append("ticks:");
            push_decimal(out, until_tick);
            proof {
                assert(out@ =~= start + wait_text(reason));
            }
        },
        WaitReason::Signal(signal) => {
            out.append("signal:");
            push_decimal(out, signal.0 as u64);
            proof {
                assert(out@ =~= start + wait_text(reason));
            }
        },
        WaitReason::Predicate(predicate) => {
            out.append("predicate:");
            push_decimal(out, predicate.0 as u64);
            proof {
                assert(out@ =~= start + wait_text(reason));
            }
        },
        WaitReason::SignalOrTicks { signal, until_tick } => {
            out.append("signal_or_ticks:");
            push_decimal(out, signal.0 as u64);
            out.append(":");
            push_decimal(out, until_tick);
            proof {
                assert(out@ =~= start + wait_text(reason));
            }
        },
        WaitReason::RaceOrTicks { left, right, until_tick } => {
            out.append("race_or_ticks:");
            push_decimal(out, left.0 as u64);
            out.append(":");
            push_decimal(out, right.0 as u64);
            out.append(":");
            push_decimal(out, until_tick);
            proof {
                assert(out@ =~= start + wait_text(reason));
            }
        },
        WaitReason::Timeout { child, until_tick } => {
            out.append("timeout:");
            push_decimal(out, child.0 as u64);
            out.append(":");
            push_decimal(out, until_tick);
            proof {
                assert(out@ =~= start + wait_text(reason));
            }
        },
        WaitReason::RepeatUntilPredicate { predicate, resume_at_tick } => {
            out.append("repeat_until_predicate:");
            push_decimal(out, predicate.0 as u64);
            out.append(":");
            push_decimal(out, resume_at_tick);
            proof {
                assert(out@ =~= start + wait_text(reason));
            }
        },
        WaitReason::ChildrenAll => out.append("children_all"),
        WaitReason::ChildrenAny => out.append("children_any"),
        WaitReason::Race { left, right } => {
            out.append("race:");
            push_decimal(out, left.0 as u64);
            out.append(":");
            push_decimal(out, right.0 as u64);
            proof {
                assert(out@ =~= start + wait_text(reason));
            }
        },
    }
}

/// The text line of one event (see `event_line`).
pub fn render_event(event: TraceEvent) -> (line: String)
    ensures
        line@ == event_line(event),
{
    match event {
        TraceEvent::TickStarted { clock } => {
            let mut out = String::from_str("tick_started clock=");
            push_decimal(&mut out, clock);
            out
        },
        TraceEvent::TickCompleted { report } => {
            let mut out = String::from_str("tick_completed clock=");
            push_decimal(&mut out, report.clock);
            out.append(" actions=");
            push_decimal(&mut out, report.actions_emitted as u64);
            out.append(" progress=");
            if report.progress_made {
                out.append("true");
            } else {
                out.append("false");
            }
            out
        },
        TraceEvent::SignalQueued { signal } => {
            let mut out = String::from_str("signal_queued signal=");
            push_decimal(&mut out, signal.0 as u64);
            out
        },
        TraceEvent::TaskSpawned { task, program_id, parent, scope_root } => {
            let mut out = String::from_str("task_spawned task=");
            push_decimal(&mut out, task.0 as u64);
            out.append(" program=");
            push_decimal(&mut out, program_id.0 as u64);
            match parent {
                Some(parent) => {
                    out.append(" parent=");
                    push_decimal(&mut out, parent.0 as u64);
                    out.append(" scope_root=");
                },
                None => {
                    out.append(" parent=root scope_root=");
                },
            }
            push_decimal(&mut out, scope_root.0 as u64);
            out
        },
        TraceEvent::TaskWaiting { task, reason } => {
            let mut out = String::from_str("task_waiting task=");
            push_decimal(&mut out, task.0 as u64);
            out.append(" reason=");
            render_wait_reason(&mut out, reason);
            out
        },
        TraceEvent::TaskWoken { task, reason } => {
            let mut out = String::from_str("task_woken task=");
            push_decimal(&mut out, task.0 as u64);
            out.append(" reason=");
            render_wait_reason(&mut out, reason);
            out
        },
        TraceEvent::ActionEmitted { task, action } => {
            let mut out = String::from_str("action_emitted task=");
            push_decimal(&mut out, task.0 as u64);
            out.append(" action=");
            push_decimal(&mut out, action.0 as u64);
            out
        },
        TraceEvent::CallEmitted { task, call } => {
            let mut out = String::from_str("call_emitted task=");
            push_decimal(&mut out, task.0 as u64);
            out.append(" call=");
            push_decimal(&mut out, call.id.0 as u64);
            out
        },
        TraceEvent::TaskMindChanged { task, from, to } => {
            let mut out = String::from_str("task_mind_changed task=");
            push_decimal(&mut out, task.0 as u64);
            out.append(" from=");
            push_decimal(&mut out, from.0 as u64);
            out.append(" to=");
            push_decimal(&mut out, to.0 as u64);
            out
        },
        TraceEvent::TaskFinished { task, outcome } => {
            let mut out = String::from_str("task_finished task=");
            push_decimal(&mut out, task.0 as u64);
            out.append(" outcome=");
            match outcome {
                Outcome::Running => out.append("Running"),
                Outcome::Succeeded => out.append("Succeeded"),
                Outcome::Failed => out.append("Failed"),
                Outcome::Cancelled => out.append("Cancelled"),
            }
            out
        },
    }
}

/// Every trace event handed to it, in order.
#[derive(Clone, Debug)]
pub struct TraceLog {
    events: Vec<TraceEvent>,
}

impl TraceLog {
    /// The recorded events, oldest first.
    pub closed spec fn event_seq(self) -> Seq<TraceEvent> {
        self.events@
    }

    pub fn new() -> (log: Self)
        ensures
            log.event_seq() == Seq::<TraceEvent>::empty(),
    {
        TraceLog { events: Vec::new() }
    }

    pub fn events(&self) -> (events: &[TraceEvent])
        ensures
            events@ == self.event_seq(),
    {
        self.events.as_slice()
    }

    pub fn clear(&mut self)
        ensures
            final(self).event_seq() == Seq::<TraceEvent>::empty(),
    {
        self.events.clear();
    }

    /// One line per event (see `event_line`), joined by newlines; empty when there are none.
    pub fn render(&self) -> (text: String)
        ensures
            text@ == rendered(self.event_seq()),
    {
        let mut out = String::new();
        let mut index: usize = 0;
        while index < self.events.len()
            invariant
                index <= self.events@.len(),
                out@ == rendered(self.events@.take(index as int)),
            decreases self.events@.len() - index,
        {
            let line = render_event(self.events[index]);
            proof {
                assert(self.events@.take(index + 1).drop_last() =~= self.events@.take(
                    index as int,
                ));
            }
            if index > 0 {
                out.append("\n");
            } else {
                proof {
                    assert(out@ =~= Seq::<char>::empty());
                }
            }
            out.append(line.as_str());
            proof {
                if index == 0 {
                    assert(out@ =~= event_line(self.events@[0]));
                }
                assert(out@ =~= rendered(self.events@.take(index + 1)));
            }
            index = index + 1;
        }
        proof {
            assert(self.events@.take(self.events@.len() as int) =~= self.events@);
        }
        out
    }
}

impl Default for TraceLog {
    fn default() -> (log: Self)
        ensures
            log.event_seq() == Seq::<TraceEvent>::empty(),
    {
        TraceLog::new()
    }
}

impl TraceSink for TraceLog {
    open spec fn received(&self) -> Seq<TraceEvent> {
        self.event_seq()
    }

    fn on_event(&mut self, event: TraceEvent)
        ensures
            final(self).event_seq() == old(self).event_seq().push(event),
    {
        self.events.push(event);
    }
}

/// One call on a log: `Some(event)` hands it `event`, `None` clears it.
pub open spec fn log_call(before: TraceLog, after: TraceLog, call: Option<TraceEvent>) -> bool {
    match call {
        Some(event) => after.event_seq() == before.event_seq().push(event),
        None => after.event_seq() == Seq::<TraceEvent>::empty(),
    }
}

/// The events handed over by `calls` since the last clear among them (all of them when
/// there is none), in order.
pub open spec fn since_last_clear(calls: Seq<Option<TraceEvent>>) -> Seq<TraceEvent>
    decreases calls.len(),
{
    if calls.len() == 0 {
        Seq::empty()
    } else {
        match calls.last() {
            Some(event) => since_last_clear(calls.drop_last()).push(event),
            None => Seq::empty(),
        }
    }
}

/// A log holds exactly the events handed to it since it was created or last cleared, in
/// the order they came: along calls `calls` from a fresh log, each log follows from the one
/// before by its call.
pub proof fn lemma_log_holds_since_clear(logs: Seq<TraceLog>, calls: Seq<Option<TraceEvent>>)
    requires
        logs.len() == calls.len() + 1,
        logs[0].event_seq() == Seq::<TraceEvent>::empty(),
        forall|i: int| 0 <= i < calls.len() ==> log_call(logs[i], logs[i + 1], #[trigger] calls[i]),
    ensures
        logs.last().event_seq() == since_last_clear(calls),
    decreases calls.len(),
{
    if calls.len() > 0 {
        let n = calls.len() - 1;
        let pre = logs.drop_last();
        let pc = calls.drop_last();
        assert forall|i: int| 0 <= i < pc.len() implies log_call(pre[i], pre[i + 1], #[trigger] pc[i]) by {
            assert(log_call(logs[i], logs[i + 1], calls[i]));
        }
        lemma_log_holds_since_clear(pre, pc);
        assert(pre.last() == logs[n]);
        assert(log_call(logs[n], logs[n + 1], calls[n]));
    }
}

/// The last characters of a task's finished line are those of its outcome's name.
proof fn lemma_finished_line_ends_with_outcome(task: TaskId, outcome: Outcome, k: int)
    requires
        1 <= k <= 6,
    ensures
        outcome_text(outcome).len() >= 6,
        event_line(TraceEvent::TaskFinished { task, outcome })[event_line(
            TraceEvent::TaskFinished { task, outcome },
        ).len() - k] == outcome_text(outcome)[outcome_text(outcome).len() - k],
{
    reveal_strlit("Running");
    reveal_strlit("Succeeded");
    reveal_strlit("Failed");
    reveal_strlit("Cancelled");
    let head = "task_finished task="@ + decimal(task.0 as nat) + " outcome="@;
    let line = event_line(TraceEvent::TaskFinished { task, outcome });
    assert(line == head + outcome_text(outcome));
    assert(line.len() == head.len() + outcome_text(outcome).len());
}

/// The line of a finished task tells its outcome: two finished lines that are equal (for
/// any tasks) name the same outcome, so distinct outcomes never render alike.
pub proof fn lemma_finished_lines_tell_outcomes(task1: TaskId, outcome1: Outcome, task2: TaskId, outcome2: Outcome)
    requires
        event_line(TraceEvent::TaskFinished { task: task1, outcome: outcome1 }) == event_line(
            TraceEvent::TaskFinished { task: task2, outcome: outcome2 },
        ),
    ensures
        outcome1 == outcome2,
{
    reveal_strlit("Running");
    reveal_strlit("Succeeded");
    reveal_strlit("Failed");
    reveal_strlit("Cancelled");
    let line = event_line(TraceEvent::TaskFinished { task: task1, outcome: outcome1 });
    lemma_finished_line_ends_with_outcome(task1, outcome1, 1);
    lemma_finished_line_ends_with_outcome(task2, outcome2, 1);
    lemma_finished_line_ends_with_outcome(task1, outcome1, 3);
    lemma_finished_line_ends_with_outcome(task2, outcome2, 3);
    lemma_finished_line_ends_with_outcome(task1, outcome1, 4);
    lemma_finished_line_ends_with_outcome(task2, outcome2, 4);
    let t1 = outcome_text(outcome1);
    let t2 = outcome_text(outcome2);
    assert(t1[t1.len() - 1] == t2[t2.len() - 1]);
    assert(t1[t1.len() - 3] == t2[t2.len() - 3]);
    assert(t1[t1.len() - 4] == t2[t2.len() - 4]);
}

/// The number a string of decimal digits reads as.
pub open spec fn digits_value(s: Seq<char>) -> int
    decreases s.len(),
{
    if s.len() == 0 {
        0
    } else {
        digits_value(s.drop_last()) * 10 + (s.last() as int - '0' as int)
    }
}

/// Numbers are written in plain decimal: only digits, at least one, no leading zero
/// (but for zero itself), and they read back as the number.
pub proof fn lemma_decimal_reads_back(n: nat)
    ensures
        decimal(n).len() > 0,
        forall|i: int| 0 <= i < decimal(n).len() ==> '0' <= #[trigger] decimal(n)[i] <= '9',
        n > 0 ==> decimal(n)[0] != '0',
        digits_value(decimal(n)) == n,
    decreases n,
{
    lemma_digit_char_value(n % 10);
    if n >= 10 {
        lemma_decimal_reads_back(n / 10);
        let head = decimal(n / 10);
        let d = digit_char(n % 10);
        assert(decimal(n) == head + seq![d]);
        assert((head + seq![d]).drop_last() =~= head);
        assert(d as int - '0' as int == n % 10);
        assert(forall|i: int| 0 <= i < head.len() ==> (head + seq![d])[i] == head[i]);
        assert(n == (n / 10) * 10 + n % 10) by (nonlinear_arith);
        assert(digits_value(head + seq![d]) == digits_value(head) * 10 + (d as int - '0' as int));
        assert(digits_value(head) * 10 == (n / 10) * 10);
    } else {
        assert(seq![digit_char(n)].drop_last() =~= Seq::<char>::empty());
        assert(n % 10 == n);
        assert(digits_value(seq![digit_char(n)]) == digits_value(Seq::<char>::empty()) * 10 + (
        digit_char(n) as int - '0' as int));
    }
}

proof fn lemma_digit_char_value(d: nat)
    requires
        d < 10,
    ensures
        digit_char(d) as int - '0' as int == d,
        '0' <= digit_char(d) <= '9',
        d > 0 ==> digit_char(d) != '0',
{
}

} // verus!
