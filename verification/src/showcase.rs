//! A guided showcase of the runtime: three built-in scripts, a host that records what the
//! scripts do as labelled lines, and a text view of the state for a front end.
use vstd::prelude::*;
use vstd::string::StringExecFns;

use crate::authoring::{
    catalog_error, compiled, doc_ids, lemma_well_formed_document_compiles, ops_references,
    OpDocument, OwnedProgramCatalog, ProgramCatalogDocument, ProgramDocument,
};
use crate::debug::{decimal, push_decimal, TraceLog};
use crate::ids::{ActionId, HostCallId, MindId, PredicateId, ProgramId, SignalId, TaskId};
use crate::inspect::{
    compile_error_label, compile_error_text, normal_form_of, normalize_snapshot, outcome_kind,
    outcome_kind_text, present, sort_by_id, SnapshotDocument,
};
use crate::program::{find_program, lemma_find_program_from, HostCall, Program, ProgramCatalog};
use crate::schedule::{host_part, tick_run, trace_part, Effect};
use crate::runtime::{
    queue_relation, spawned_record, spec_root_mind, tick_relation, Host, HostRequest, Runtime,
    RuntimeError, StepReport, TaskRecord, WaitReason,
};
use crate::snapshot::RuntimeSnapshot;
use crate::trace::TraceEvent;

verus! {

/// The program every showcase script starts with.
pub const MAIN_PROGRAM: u16 = 1;

/// The predicate the showcase host answers (the boss is vulnerable / its core is exposed).
pub const EXPOSED_PREDICATE: u16 = 1;

/// The built-in scripts.
#[derive(Clone, Copy, Debug, PartialEq, Eq, Structural)]
pub enum ShowcasePreset {
    DeathOfTick,
    ShootemupBoss,
    MultiMind,
}

pub open spec fn preset_text(preset: ShowcasePreset) -> Seq<char> {
    match preset {
        ShowcasePreset::DeathOfTick => "encounter"@,
        ShowcasePreset::ShootemupBoss => "shootemup"@,
        ShowcasePreset::MultiMind => "multimind"@,
    }
}

/// The preset a name selects, if any.
pub open spec fn preset_named(raw: Seq<char>) -> Option<ShowcasePreset> {
    if raw == "encounter"@ || raw == "death_of_tick"@ {
        Some(ShowcasePreset::DeathOfTick)
    } else if raw == "shootemup"@ || raw == "shootemup_boss"@ {
        Some(ShowcasePreset::ShootemupBoss)
    } else if raw == "multimind"@ || raw == "multi_mind"@ || raw == "mind_the_gap"@ {
        Some(ShowcasePreset::MultiMind)
    } else {
        None
    }
}

fn same_text(raw: &str, name: &str) -> (same: bool)
    ensures
        same == (raw@ == name@),
{
    String::from_str(raw) == String::from_str(name)
}

impl ShowcasePreset {
    pub fn as_str(self) -> (name: &'static str)
        ensures
            name@ == preset_text(self),
    {
        match self {
            ShowcasePreset::DeathOfTick => "encounter",
            ShowcasePreset::ShootemupBoss => "shootemup",
            ShowcasePreset::MultiMind => "multimind",
        }
    }

    /// The preset that `raw` names (see `preset_named`).
    pub fn parse(raw: &str) -> (r: Result<Self, String>)
        ensures
            match preset_named(raw@) {
                Some(preset) => r == Ok::<Self, String>(preset),
                None => r matches Err(message) && message@ == "unknown preset: "@ + raw@,
            },
    {
        if same_text(raw, "encounter") || same_text(raw, "death_of_tick") {
            Ok(ShowcasePreset::DeathOfTick)
        } else if same_text(raw, "shootemup") || same_text(raw, "shootemup_boss") {
            Ok(ShowcasePreset::ShootemupBoss)
        } else if same_text(raw, "multimind") || same_text(raw, "multi_mind") || same_text(
            raw,
            "mind_the_gap",
        ) {
            Ok(ShowcasePreset::MultiMind)
        } else {
            let mut message = String::from_str("unknown preset: ");
            message.append(raw);
            Err(message)
        }
    }
}

pub open spec fn title_text(preset: ShowcasePreset) -> Seq<char> {
    match preset {
        ShowcasePreset::DeathOfTick => "The Death of Tick"@,
        ShowcasePreset::ShootemupBoss => "Shootemup Boss"@,
        ShowcasePreset::MultiMind => "Mind the Gap"@,
    }
}

pub fn title_for_preset(preset: ShowcasePreset) -> (title: &'static str)
    ensures
        title@ == title_text(preset),
{
    match preset {
        ShowcasePreset::DeathOfTick => "The Death of Tick",
        ShowcasePreset::ShootemupBoss => "Shootemup Boss",
        ShowcasePreset::MultiMind => "Mind the Gap",
    }
}

pub open spec fn subtitle_text(preset: ShowcasePreset) -> Seq<char> {
    match preset {
        ShowcasePreset::DeathOfTick => "A switchyard showcase for structured encounter orchestration."@,
        ShowcasePreset::ShootemupBoss => "A switchyard showcase for boss-phase timing, projectile calls, and phase races."@,
        ShowcasePreset::MultiMind => "A switchyard showcase for director and gameplay minds handing control back and forth."@,
    }
}

pub fn subtitle_for_preset(preset: ShowcasePreset) -> (subtitle: &'static str)
    ensures
        subtitle@ == subtitle_text(preset),
{
    match preset {
        ShowcasePreset::DeathOfTick => "A switchyard showcase for structured encounter orchestration.",
        ShowcasePreset::ShootemupBoss => "A switchyard showcase for boss-phase timing, projectile calls, and phase races.",
        ShowcasePreset::MultiMind => "A switchyard showcase for director and gameplay minds handing control back and forth.",
    }
}

pub open spec fn snapshot_hint_text(preset: ShowcasePreset) -> Seq<char> {
    match preset {
        ShowcasePreset::DeathOfTick => "Save a snapshot before resolving the race, then restore and choose the other branch."@,
        ShowcasePreset::ShootemupBoss => "Save a snapshot after the core is exposed, then either trigger a core break or let enrage win."@,
        ShowcasePreset::MultiMind => "Save a snapshot after the handoff parks on the gameplay mind, then restore and resume the transfer."@,
    }
}

pub fn snapshot_hint_for_preset(preset: ShowcasePreset) -> (hint: &'static str)
    ensures
        hint@ == snapshot_hint_text(preset),
{
    match preset {
        ShowcasePreset::DeathOfTick => "Save a snapshot before resolving the race, then restore and choose the other branch.",
        ShowcasePreset::ShootemupBoss => "Save a snapshot after the core is exposed, then either trigger a core break or let enrage win.",
        ShowcasePreset::MultiMind => "Save a snapshot after the handoff parks on the gameplay mind, then restore and resume the transfer.",
    }
}

/// A signed decimal: a minus sign before the digits of a negative number.
pub open spec fn signed_decimal(v: int) -> Seq<char> {
    if v < 0 {
        "-"@ + decimal((-v) as nat)
    } else {
        decimal(v as nat)
    }
}

/// Appends the signed decimal of `v`.
pub fn push_signed(out: &mut String, v: i32)
    ensures
        final(out)@ == old(out)@ + signed_decimal(v as int),
{
    if v < 0 {
        out.append("-");
        let magnitude: i64 = -(v as i64);
        push_decimal(out, magnitude as u64);
        proof {
            assert(out@ =~= old(out)@ + signed_decimal(v as int));
        }
    } else {
        push_decimal(out, v as u64);
    }
}

/// The line the showcase host records for an action.
pub open spec fn action_text(action: ActionId) -> Seq<char> {
    if action.0 == 1 {
        "Camera crawls through the switchyard ruins."@
    } else if action.0 == 2 {
        "The portcullis rises on cue."@
    } else if action.0 == 3 {
        "A scout throws the all-clear from the gantry."@
    } else if action.0 == 4 {
        "The boss steps into the lantern light."@
    } else if action.0 == 5 {
        "The emergency escape route tears open."@
    } else if action.0 == 6 {
        "The encounter resolves without a monolithic tick function."@
    } else if action.0 == 101 {
        "The boss frame drifts into the lane and charges the arena."@
    } else if action.0 == 102 {
        "The shutters peel back and the first barrage starts."@
    } else if action.0 == 103 {
        "The opening bullet curtain burns out on schedule."@
    } else if action.0 == 104 {
        "The player cracks the exposed core before enrage."@
    } else if action.0 == 105 {
        "The boss hits enrage and dives into a desperate pattern."@
    } else if action.0 == 106 {
        "The boss phase resolves without a handwritten state machine."@
    } else if action.0 == 201 {
        "The director marks the next scene and prepares the handoff."@
    } else if action.0 == 202 {
        "The gameplay mind takes control and starts the playable beat."@
    } else if action.0 == 203 {
        "The director mind regains control for cleanup and rollout."@
    } else {
        "Action "@ + decimal(action.0 as nat) + " emitted."@
    }
}

/// The line the showcase host records for an action (see `action_text`).
pub fn action_label(action: ActionId) -> (label: String)
    ensures
        label@ == action_text(action),
{
    if action.0 == 1 {
        String::from_str("Camera crawls through the switchyard ruins.")
    } else if action.0 == 2 {
        String::from_str("The portcullis rises on cue.")
    } else if action.0 == 3 {
        String::from_str("A scout throws the all-clear from the gantry.")
    } else if action.0 == 4 {
        String::from_str("The boss steps into the lantern light.")
    } else if action.0 == 5 {
        String::from_str("The emergency escape route tears open.")
    } else if action.0 == 6 {
        String::from_str("The encounter resolves without a monolithic tick function.")
    } else if action.0 == 101 {
        String::from_str("The boss frame drifts into the lane and charges the arena.")
    } else if action.0 == 102 {
        String::from_str("The shutters peel back and the first barrage starts.")
    } else if action.0 == 103 {
        String::from_str("The opening bullet curtain burns out on schedule.")
    } else if action.0 == 104 {
        String::from_str("The player cracks the exposed core before enrage.")
    } else if action.0 == 105 {
        String::from_str("The boss hits enrage and dives into a desperate pattern.")
    } else if action.0 == 106 {
        String::from_str("The boss phase resolves without a handwritten state machine.")
    } else if action.0 == 201 {
        String::from_str("The director marks the next scene and prepares the handoff.")
    } else if action.0 == 202 {
        String::from_str("The gameplay mind takes control and starts the playable beat.")
    } else if action.0 == 203 {
        String::from_str("The director mind regains control for cleanup and rollout.")
    } else {
        let mut out = String::from_str("Action ");
        push_decimal(&mut out, action.0 as u64);
        out.append(" emitted.");
        out
    }
}

/// The four arguments of a call, each after its name, as the call lines show them.
pub open spec fn call_args_text(call: HostCall, n0: Seq<char>, n1: Seq<char>, n2: Seq<char>, n3: Seq<char>) -> Seq<char> {
    n0 + signed_decimal(call.args[0] as int) + n1 + signed_decimal(call.args[1] as int) + n2
        + signed_decimal(call.args[2] as int) + n3 + signed_decimal(call.args[3] as int)
}

/// The line the showcase host records for a host call.
pub open spec fn call_text(call: HostCall) -> Seq<char> {
    if call.id.0 == 1 {
        call_args_text(call, "Spawn projectile pattern="@, " x="@, " y="@, " speed="@) + "."@
    } else if call.id.0 == 2 {
        call_args_text(call, "Debug print code="@, " arg1="@, " arg2="@, " arg3="@) + "."@
    } else {
        "Host call "@ + decimal(call.id.0 as nat) + call_args_text(call, " args=["@, ", "@, ", "@, ", "@)
            + "]."@
    }
}

fn push_call_args(out: &mut String, call: HostCall, n0: &str, n1: &str, n2: &str, n3: &str)
    ensures
        final(out)@ == old(out)@ + call_args_text(call, n0@, n1@, n2@, n3@),
{
    out.append(n0);
    push_signed(out, call.args[0]);
    out.append(n1);
    push_signed(out, call.args[1]);
    out.append(n2);
    push_signed(out, call.args[2]);
    out.append(n3);
    push_signed(out, call.args[3]);
    proof {
        assert(out@ =~= old(out)@ + call_args_text(call, n0@, n1@, n2@, n3@));
    }
}

/// The line the showcase host records for a host call (see `call_text`).
pub fn call_label(call: HostCall) -> (label: String)
    ensures
        label@ == call_text(call),
{
    if call.id.0 == 1 {
        let mut out = String::new();
        push_call_args(&mut out, call, "Spawn projectile pattern=", " x=", " y=", " speed=");
        out.append(".");
        proof {
            assert(out@ =~= call_text(call));
        }
        out
    } else if call.id.0 == 2 {
        let mut out = String::new();
        push_call_args(&mut out, call, "Debug print code=", " arg1=", " arg2=", " arg3=");
        out.append(".");
        proof {
            assert(out@ =~= call_text(call));
        }
        out
    } else {
        let mut out = String::from_str("Host call ");
        push_decimal(&mut out, call.id.0 as u64);
        push_call_args(&mut out, call, " args=[", ", ", ", ", ", ");
        out.append("].");
        proof {
            assert(out@ =~= call_text(call));
        }
        out
    }
}

/// The name the showcase gives a program.
pub open spec fn program_text(preset: ShowcasePreset, program: ProgramId) -> Seq<char> {
    let id = program.0;
    if id == 1 {
        match preset {
            ShowcasePreset::DeathOfTick => "main encounter"@,
            ShowcasePreset::ShootemupBoss => "boss phase"@,
            ShowcasePreset::MultiMind => "director track"@,
        }
    } else if id == 2 {
        "gate rise"@
    } else if id == 3 {
        "scout relay"@
    } else if id == 4 {
        "boss entrance"@
    } else if id == 5 {
        "collapse escape"@
    } else if id == 21 {
        "boss windup"@
    } else if id == 22 {
        "pattern window"@
    } else if id == 23 {
        "core break"@
    } else if id == 24 {
        "enrage trigger"@
    } else if id == 25 {
        "left sweep"@
    } else if id == 26 {
        "right sweep"@
    } else if id == 27 {
        "left burst"@
    } else if id == 28 {
        "right burst"@
    } else if id == 41 {
        "stage relay"@
    } else {
        "program "@ + decimal(id as nat)
    }
}

/// The name the showcase gives a program (see `program_text`).
pub fn program_label(preset: ShowcasePreset, program: ProgramId) -> (label: String)
    ensures
        label@ == program_text(preset, program),
{
    let id = program.0;
    if id == 1 {
        match preset {
            ShowcasePreset::DeathOfTick => String::from_str("main encounter"),
            ShowcasePreset::ShootemupBoss => String::from_str("boss phase"),
            ShowcasePreset::MultiMind => String::from_str("director track"),
        }
    } else if id == 2 {
        String::from_str("gate rise")
    } else if id == 3 {
        String::from_str("scout relay")
    } else if id == 4 {
        String::from_str("boss entrance")
    } else if id == 5 {
        String::from_str("collapse escape")
    } else if id == 21 {
        String::from_str("boss windup")
    } else if id == 22 {
        String::from_str("pattern window")
    } else if id == 23 {
        String::from_str("core break")
    } else if id == 24 {
        String::from_str("enrage trigger")
    } else if id == 25 {
        String::from_str("left sweep")
    } else if id == 26 {
        String::from_str("right sweep")
    } else if id == 27 {
        String::from_str("left burst")
    } else if id == 28 {
        String::from_str("right burst")
    } else if id == 41 {
        String::from_str("stage relay")
    } else {
        let mut out = String::from_str("program ");
        push_decimal(&mut out, id as u64);
        out
    }
}

/// The name the showcase gives a signal, which depends on the script.
pub open spec fn signal_text(preset: ShowcasePreset, signal: SignalId) -> Seq<char> {
    let id = signal.0;
    match preset {
        ShowcasePreset::DeathOfTick => if id == 1 {
            "player committed"@
        } else if id == 2 {
            "scouts ready"@
        } else if id == 3 {
            "boss spotted"@
        } else if id == 4 {
            "collapse triggered"@
        } else {
            "signal "@ + decimal(id as nat)
        },
        ShowcasePreset::ShootemupBoss => if id == 1 {
            "wave started"@
        } else if id == 2 {
            "wing drones cleared"@
        } else if id == 3 {
            "core broken"@
        } else if id == 4 {
            "bomb triggered"@
        } else {
            "signal "@ + decimal(id as nat)
        },
        ShowcasePreset::MultiMind => if id == 1 {
            "director cue"@
        } else if id == 2 {
            "gameplay beat locked"@
        } else if id == 3 {
            "cleanup cue"@
        } else if id == 4 {
            "final blackout"@
        } else {
            "signal "@ + decimal(id as nat)
        },
    }
}

/// The name the showcase gives a signal (see `signal_text`).
pub fn signal_label(preset: ShowcasePreset, signal: SignalId) -> (label: String)
    ensures
        label@ == signal_text(preset, signal),
{
    let id = signal.0;
    if 1 <= id && id <= 4 {
        let name = match preset {
            ShowcasePreset::DeathOfTick => if id == 1 {
                "player committed"
            } else if id == 2 {
                "scouts ready"
            } else if id == 3 {
                "boss spotted"
            } else {
                "collapse triggered"
            },
            ShowcasePreset::ShootemupBoss => if id == 1 {
                "wave started"
            } else if id == 2 {
                "wing drones cleared"
            } else if id == 3 {
                "core broken"
            } else {
                "bomb triggered"
            },
            ShowcasePreset::MultiMind => if id == 1 {
                "director cue"
            } else if id == 2 {
                "gameplay beat locked"
            } else if id == 3 {
                "cleanup cue"
            } else {
                "final blackout"
            },
        };
        String::from_str(name)
    } else {
        let mut out = String::from_str("signal ");
        push_decimal(&mut out, id as u64);
        out
    }
}

/// The name the showcase gives a predicate.
pub open spec fn predicate_text(preset: ShowcasePreset, predicate: PredicateId) -> Seq<char> {
    if preset == ShowcasePreset::DeathOfTick && predicate.0 == EXPOSED_PREDICATE {
        "boss vulnerable"@
    } else if preset == ShowcasePreset::ShootemupBoss && predicate.0 == EXPOSED_PREDICATE {
        "core exposed"@
    } else {
        "predicate "@ + decimal(predicate.0 as nat)
    }
}

/// The name the showcase gives a predicate (see `predicate_text`).
pub fn predicate_label(preset: ShowcasePreset, predicate: PredicateId) -> (label: String)
    ensures
        label@ == predicate_text(preset, predicate),
{
    if preset == ShowcasePreset::DeathOfTick && predicate.0 == EXPOSED_PREDICATE {
        String::from_str("boss vulnerable")
    } else if preset == ShowcasePreset::ShootemupBoss && predicate.0 == EXPOSED_PREDICATE {
        String::from_str("core exposed")
    } else {
        let mut out = String::from_str("predicate ");
        push_decimal(&mut out, predicate.0 as u64);
        out
    }
}

/// The name the showcase gives a mind.
pub open spec fn mind_text(preset: ShowcasePreset, mind: MindId) -> Seq<char> {
    if preset == ShowcasePreset::MultiMind && mind.0 == 1 {
        "director mind"@
    } else if preset == ShowcasePreset::MultiMind && mind.0 == 2 {
        "gameplay mind"@
    } else {
        "mind "@ + decimal(mind.0 as nat)
    }
}

/// The name the showcase gives a mind (see `mind_text`).
pub fn mind_label(preset: ShowcasePreset, mind: MindId) -> (label: String)
    ensures
        label@ == mind_text(preset, mind),
{
    if preset == ShowcasePreset::MultiMind && mind.0 == 1 {
        String::from_str("director mind")
    } else if preset == ShowcasePreset::MultiMind && mind.0 == 2 {
        String::from_str("gameplay mind")
    } else {
        let mut out = String::from_str("mind ");
        push_decimal(&mut out, mind.0 as u64);
        out
    }
}

/// How the showcase describes a wait.
pub open spec fn wait_label_text(reason: WaitReason, preset: ShowcasePreset) -> Seq<char> {
    match reason {
        WaitReason::Ready => "ready"@,
        WaitReason::Ticks { until_tick } => "ticks until "@ + decimal(until_tick as nat),
        WaitReason::SignalOrTicks { signal, until_tick } => "signal_or_ticks: "@ + signal_text(
            preset,
            signal,
        ) + " or clock "@ + decimal(until_tick as nat),
        WaitReason::RaceOrTicks { left, right, until_tick } => "race_children_or_ticks: task "@
            + decimal(left.0 as nat) + " vs task "@ + decimal(right.0 as nat) + " until clock "@
            + decimal(until_tick as nat),
        WaitReason::Timeout { child, until_tick } => "timeout_ticks: child "@ + decimal(
            child.0 as nat,
        ) + " until clock "@ + decimal(until_tick as nat),
        WaitReason::Signal(signal) => "signal: "@ + signal_text(preset, signal),
        WaitReason::Predicate(predicate) => "predicate: "@ + predicate_text(preset, predicate),
        WaitReason::RepeatUntilPredicate { predicate, resume_at_tick } => "repeat_until_predicate: "@
            + predicate_text(preset, predicate) + " (resume at clock "@ + decimal(
            resume_at_tick as nat,
        ) + ")"@,
        WaitReason::ChildrenAll => "join_children"@,
        WaitReason::ChildrenAny => "join_any_children"@,
        WaitReason::Race { left, right } => "race between task "@ + decimal(left.0 as nat)
            + " and task "@ + decimal(right.0 as nat),
    }
}

/// How the showcase describes a wait (see `wait_label_text`).
pub fn wait_reason_label(reason: WaitReason, preset: ShowcasePreset) -> (label: String)
    ensures
        label@ == wait_label_text(reason, preset),
{
    match reason {
        WaitReason::Ready => String::from_str("ready"),
        WaitReason::Ticks { until_tick } => {
            let mut out = String::from_str("ticks until ");
            push_decimal(&mut out, until_tick);
            out
        },
        WaitReason::SignalOrTicks { signal, until_tick } => {
            let mut out = String::from_str("signal_or_ticks: ");
            let name = signal_label(preset, signal);
            out.append(name.as_str());
            out.append(" or clock ");
            push_decimal(&mut out, until_tick);
            out
        },
        WaitReason::RaceOrTicks { left, right, until_tick } => {
            let mut out = String::from_str("race_children_or_ticks: task ");
            push_decimal(&mut out, left.0 as u64);
            out.append(" vs task ");
            push_decimal(&mut out, right.0 as u64);
            out.append(" until clock ");
            push_decimal(&mut out, until_tick);
            out
        },
        WaitReason::Timeout { child, until_tick } => {
            let mut out = String::from_str("timeout_ticks: child ");
            push_decimal(&mut out, child.0 as u64);
            out.append(" until clock ");
            push_decimal(&mut out, until_tick);
            out
        },
        WaitReason::Signal(signal) => {
            let mut out = String::from_str("signal: ");
            let name = signal_label(preset, signal);
            out.append(name.as_str());
            out
        },
        WaitReason::Predicate(predicate) => {
            let mut out = String::from_str("predicate: ");
            let name = predicate_label(preset, predicate);
            out.append(name.as_str());
            out
        },
        WaitReason::RepeatUntilPredicate { predicate, resume_at_tick } => {
            let mut out = String::from_str("repeat_until_predicate: ");
            let name = predicate_label(preset, predicate);
            out.append(name.as_str());
            out.append(" (resume at clock ");
            push_decimal(&mut out, resume_at_tick);
            out.append(")");
            out
        },
        WaitReason::ChildrenAll => String::from_str("join_children"),
        WaitReason::ChildrenAny => String::from_str("join_any_children"),
        WaitReason::Race { left, right } => {
            let mut out = String::from_str("race between task ");
            push_decimal(&mut out, left.0 as u64);
            out.append(" and task ");
            push_decimal(&mut out, right.0 as u64);
            out
        },
    }
}

/// A script as plain values: each program's id and its ops, in order.
pub open spec fn script_view(programs: Seq<ProgramDocument>) -> Seq<(ProgramId, Seq<OpDocument>)> {
    programs.map_values(|p: ProgramDocument| (p.id, p.ops@))
}

/// The encounter script, as plain values (see `death_of_tick_script_document`).
pub open spec fn death_of_tick_script() -> Seq<(ProgramId, Seq<OpDocument>)> {
    seq![
        (ProgramId(1), seq![
            OpDocument::Action { action: ActionId(1) },
            OpDocument::WaitSignal { signal: SignalId(1) },
            OpDocument::Spawn { program: ProgramId(2) },
            OpDocument::Spawn { program: ProgramId(3) },
            OpDocument::JoinChildren,
            OpDocument::WaitPredicate { predicate: PredicateId(1) },
            OpDocument::RaceChildren { left: ProgramId(4), right: ProgramId(5) },
            OpDocument::Action { action: ActionId(6) },
            OpDocument::Succeed,
        ]),
        (ProgramId(2), seq![
            OpDocument::WaitTicks { ticks: 2 },
            OpDocument::Action { action: ActionId(2) },
            OpDocument::Succeed,
        ]),
        (ProgramId(3), seq![
            OpDocument::WaitSignal { signal: SignalId(2) },
            OpDocument::Action { action: ActionId(3) },
            OpDocument::Succeed,
        ]),
        (ProgramId(4), seq![
            OpDocument::WaitSignal { signal: SignalId(3) },
            OpDocument::Action { action: ActionId(4) },
            OpDocument::Succeed,
        ]),
        (ProgramId(5), seq![
            OpDocument::WaitSignal { signal: SignalId(4) },
            OpDocument::Action { action: ActionId(5) },
            OpDocument::Succeed,
        ]),
    ]
}

/// The boss script, as plain values (see `shootemup_boss_script_document`).
pub open spec fn shootemup_boss_script() -> Seq<(ProgramId, Seq<OpDocument>)> {
    seq![
        (ProgramId(1), seq![
            OpDocument::Action { action: ActionId(101) },
            OpDocument::WaitSignal { signal: SignalId(1) },
            OpDocument::Spawn { program: ProgramId(21) },
            OpDocument::Spawn { program: ProgramId(22) },
            OpDocument::JoinChildren,
            OpDocument::WaitPredicate { predicate: PredicateId(1) },
            OpDocument::RaceChildrenUntilTick {
            left: ProgramId(23),
            right: ProgramId(24),
            until_tick: 9,
            },
            OpDocument::Action { action: ActionId(106) },
            OpDocument::Succeed,
        ]),
        (ProgramId(21), seq![
            OpDocument::WaitTicks { ticks: 1 },
            OpDocument::Call {
            call: HostCallId(1),
            arg0: 90,
            arg1: 128,
            arg2: 16,
            arg3: 2,
            },
            OpDocument::Action { action: ActionId(102) },
            OpDocument::Succeed,
        ]),
        (ProgramId(22), seq![
            OpDocument::WaitSignalUntilTick { signal: SignalId(2), until_tick: 5 },
            OpDocument::RaceChildrenUntilTick {
            left: ProgramId(25),
            right: ProgramId(26),
            until_tick: 6,
            },
            OpDocument::Action { action: ActionId(103) },
            OpDocument::Succeed,
        ]),
        (ProgramId(25), seq![
            OpDocument::RepeatCount { count: 4, program: ProgramId(27) },
            OpDocument::Succeed,
        ]),
        (ProgramId(26), seq![
            OpDocument::RepeatCount { count: 4, program: ProgramId(28) },
            OpDocument::Succeed,
        ]),
        (ProgramId(27), seq![
            OpDocument::Call { call: HostCallId(1), arg0: 1, arg1: 64, arg2: 28, arg3: 5 },
            OpDocument::WaitTicks { ticks: 1 },
            OpDocument::Succeed,
        ]),
        (ProgramId(28), seq![
            OpDocument::WaitTicks { ticks: 1 },
            OpDocument::Call { call: HostCallId(1), arg0: 2, arg1: 192, arg2: 28, arg3: 6 },
            OpDocument::Succeed,
        ]),
        (ProgramId(23), seq![
            OpDocument::WaitSignalUntilTick { signal: SignalId(3), until_tick: 9 },
            OpDocument::Action { action: ActionId(104) },
            OpDocument::Succeed,
        ]),
        (ProgramId(24), seq![
            OpDocument::WaitUntilTick { until_tick: 8 },
            OpDocument::Action { action: ActionId(105) },
            OpDocument::Succeed,
        ]),
    ]
}

/// The hand-off script, as plain values (see `multimind_script_document`).
pub open spec fn multimind_script() -> Seq<(ProgramId, Seq<OpDocument>)> {
    seq![
        (ProgramId(1), seq![
            OpDocument::Action { action: ActionId(201) },
            OpDocument::WaitSignal { signal: SignalId(1) },
            OpDocument::ChangeMind { mind: MindId(2) },
            OpDocument::Action { action: ActionId(202) },
            OpDocument::WaitSignal { signal: SignalId(2) },
            OpDocument::ChangeMind { mind: MindId(1) },
            OpDocument::Action { action: ActionId(203) },
            OpDocument::Succeed,
        ]),
        (ProgramId(41), seq![OpDocument::Succeed]),
    ]
}

/// The encounter script: a camera beat, a gate and a scout relay joined, a wait on the
/// boss becoming vulnerable, then a race between the boss entrance and the escape.
pub fn death_of_tick_script_document() -> (document: ProgramCatalogDocument)
    ensures
        catalog_error(document.programs@) is None,
        document.programs@[0].id == ProgramId(MAIN_PROGRAM),
        script_view(document.programs@) == death_of_tick_script(),
{
    let document = ProgramCatalogDocument {
        programs: vec![
            ProgramDocument {
                id: ProgramId(1),
                ops: vec![
                    OpDocument::Action { action: ActionId(1) },
                    OpDocument::WaitSignal { signal: SignalId(1) },
                    OpDocument::Spawn { program: ProgramId(2) },
                    OpDocument::Spawn { program: ProgramId(3) },
                    OpDocument::JoinChildren,
                    OpDocument::WaitPredicate { predicate: PredicateId(1) },
                    OpDocument::RaceChildren { left: ProgramId(4), right: ProgramId(5) },
                    OpDocument::Action { action: ActionId(6) },
                    OpDocument::Succeed,
                ],
            },
            ProgramDocument {
                id: ProgramId(2),
                ops: vec![
                    OpDocument::WaitTicks { ticks: 2 },
                    OpDocument::Action { action: ActionId(2) },
                    OpDocument::Succeed,
                ],
            },
            ProgramDocument {
                id: ProgramId(3),
                ops: vec![
                    OpDocument::WaitSignal { signal: SignalId(2) },
                    OpDocument::Action { action: ActionId(3) },
                    OpDocument::Succeed,
                ],
            },
            ProgramDocument {
                id: ProgramId(4),
                ops: vec![
                    OpDocument::WaitSignal { signal: SignalId(3) },
                    OpDocument::Action { action: ActionId(4) },
                    OpDocument::Succeed,
                ],
            },
            ProgramDocument {
                id: ProgramId(5),
                ops: vec![
                    OpDocument::WaitSignal { signal: SignalId(4) },
                    OpDocument::Action { action: ActionId(5) },
                    OpDocument::Succeed,
                ],
            },
        ],
    };
    proof {
        let p = document.programs@;
        assert(script_view(p) =~= death_of_tick_script());
        reveal_with_fuel(ops_references, 10);
        assert(doc_ids(p) =~= seq![
            ProgramId(1),
            ProgramId(2),
            ProgramId(3),
            ProgramId(4),
            ProgramId(5),
        ]);
        assert(ops_references(p[0].ops@) =~= seq![
            ProgramId(2),
            ProgramId(3),
            ProgramId(4),
            ProgramId(5),
        ]);
        assert(ops_references(p[1].ops@) =~= Seq::<ProgramId>::empty());
        assert(ops_references(p[2].ops@) =~= Seq::<ProgramId>::empty());
        assert(ops_references(p[3].ops@) =~= Seq::<ProgramId>::empty());
        assert(ops_references(p[4].ops@) =~= Seq::<ProgramId>::empty());
        assert forall|i: int, j: int|
            0 <= i < p.len() && 0 <= j < ops_references(p[i].ops@).len() implies doc_ids(
            p,
        ).contains(#[trigger] ops_references(p[i].ops@)[j]) by {
            assert(doc_ids(p)[j + 1] == ops_references(p[i].ops@)[j]);
        }
        lemma_well_formed_document_compiles(p);
    }
    document
}

/// The boss script: a windup and a pattern window (a race of two repeated sweeps) joined,
/// a wait on the core being exposed, then a race between the core break and enrage.
pub fn shootemup_boss_script_document() -> (document: ProgramCatalogDocument)
    ensures
        catalog_error(document.programs@) is None,
        document.programs@[0].id == ProgramId(MAIN_PROGRAM),
        script_view(document.programs@) == shootemup_boss_script(),
{
    let document = ProgramCatalogDocument {
        programs: vec![
            ProgramDocument {
                id: ProgramId(1),
                ops: vec![
                    OpDocument::Action { action: ActionId(101) },
                    OpDocument::WaitSignal { signal: SignalId(1) },
                    OpDocument::Spawn { program: ProgramId(21) },
                    OpDocument::Spawn { program: ProgramId(22) },
                    OpDocument::JoinChildren,
                    OpDocument::WaitPredicate { predicate: PredicateId(1) },
                    OpDocument::RaceChildrenUntilTick {
                        left: ProgramId(23),
                        right: ProgramId(24),
                        until_tick: 9,
                    },
                    OpDocument::Action { action: ActionId(106) },
                    OpDocument::Succeed,
                ],
            },
            ProgramDocument {
                id: ProgramId(21),
                ops: vec![
                    OpDocument::WaitTicks { ticks: 1 },
                    OpDocument::Call {
                        call: HostCallId(1),
                        arg0: 90,
                        arg1: 128,
                        arg2: 16,
                        arg3: 2,
                    },
                    OpDocument::Action { action: ActionId(102) },
                    OpDocument::Succeed,
                ],
            },
            ProgramDocument {
                id: ProgramId(22),
                ops: vec![
                    OpDocument::WaitSignalUntilTick { signal: SignalId(2), until_tick: 5 },
                    OpDocument::RaceChildrenUntilTick {
                        left: ProgramId(25),
                        right: ProgramId(26),
                        until_tick: 6,
                    },
                    OpDocument::Action { action: ActionId(103) },
                    OpDocument::Succeed,
                ],
            },
            ProgramDocument {
                id: ProgramId(25),
                ops: vec![
                    OpDocument::RepeatCount { count: 4, program: ProgramId(27) },
                    OpDocument::Succeed,
                ],
            },
            ProgramDocument {
                id: ProgramId(26),
                ops: vec![
                    OpDocument::RepeatCount { count: 4, program: ProgramId(28) },
                    OpDocument::Succeed,
                ],
            },
            ProgramDocument {
                id: ProgramId(27),
                ops: vec![
                    OpDocument::Call { call: HostCallId(1), arg0: 1, arg1: 64, arg2: 28, arg3: 5 },
                    OpDocument::WaitTicks { ticks: 1 },
                    OpDocument::Succeed,
                ],
            },
            ProgramDocument {
                id: ProgramId(28),
                ops: vec![
                    OpDocument::WaitTicks { ticks: 1 },
                    OpDocument::Call { call: HostCallId(1), arg0: 2, arg1: 192, arg2: 28, arg3: 6 },
                    OpDocument::Succeed,
                ],
            },
            ProgramDocument {
                id: ProgramId(23),
                ops: vec![
                    OpDocument::WaitSignalUntilTick { signal: SignalId(3), until_tick: 9 },
                    OpDocument::Action { action: ActionId(104) },
                    OpDocument::Succeed,
                ],
            },
            ProgramDocument {
                id: ProgramId(24),
                ops: vec![
                    OpDocument::WaitUntilTick { until_tick: 8 },
                    OpDocument::Action { action: ActionId(105) },
                    OpDocument::Succeed,
                ],
            },
        ],
    };
    proof {
        let p = document.programs@;
        assert(script_view(p) =~= shootemup_boss_script());
        reveal_with_fuel(ops_references, 10);
        assert(doc_ids(p) =~= seq![
            ProgramId(1),
            ProgramId(21),
            ProgramId(22),
            ProgramId(25),
            ProgramId(26),
            ProgramId(27),
            ProgramId(28),
            ProgramId(23),
            ProgramId(24),
        ]);
        assert(ops_references(p[0].ops@) =~= seq![
            ProgramId(21),
            ProgramId(22),
            ProgramId(23),
            ProgramId(24),
        ]);
        assert(ops_references(p[1].ops@) =~= Seq::<ProgramId>::empty());
        assert(ops_references(p[2].ops@) =~= seq![ProgramId(25), ProgramId(26)]);
        assert(ops_references(p[3].ops@) =~= seq![ProgramId(27)]);
        assert(ops_references(p[4].ops@) =~= seq![ProgramId(28)]);
        assert(ops_references(p[5].ops@) =~= Seq::<ProgramId>::empty());
        assert(ops_references(p[6].ops@) =~= Seq::<ProgramId>::empty());
        assert(ops_references(p[7].ops@) =~= Seq::<ProgramId>::empty());
        assert(ops_references(p[8].ops@) =~= Seq::<ProgramId>::empty());
        assert forall|i: int, j: int|
            0 <= i < p.len() && 0 <= j < ops_references(p[i].ops@).len() implies doc_ids(
            p,
        ).contains(#[trigger] ops_references(p[i].ops@)[j]) by {
            if i == 0 {
                if j == 0 {
                    assert(doc_ids(p)[1] == ops_references(p[i].ops@)[j]);
                } else if j == 1 {
                    assert(doc_ids(p)[2] == ops_references(p[i].ops@)[j]);
                } else if j == 2 {
                    assert(doc_ids(p)[7] == ops_references(p[i].ops@)[j]);
                } else {
                    assert(doc_ids(p)[8] == ops_references(p[i].ops@)[j]);
                }
            } else if i == 2 {
                assert(doc_ids(p)[j + 3] == ops_references(p[i].ops@)[j]);
            } else if i == 3 {
                assert(doc_ids(p)[5] == ops_references(p[i].ops@)[j]);
            } else {
                assert(doc_ids(p)[6] == ops_references(p[i].ops@)[j]);
            }
        }
        lemma_well_formed_document_compiles(p);
    }
    document
}

/// The hand-off script: the director and gameplay minds take turns driving one task.
pub fn multimind_script_document() -> (document: ProgramCatalogDocument)
    ensures
        catalog_error(document.programs@) is None,
        document.programs@[0].id == ProgramId(MAIN_PROGRAM),
        script_view(document.programs@) == multimind_script(),
{
    let document = ProgramCatalogDocument {
        programs: vec![
            ProgramDocument {
                id: ProgramId(1),
                ops: vec![
                    OpDocument::Action { action: ActionId(201) },
                    OpDocument::WaitSignal { signal: SignalId(1) },
                    OpDocument::ChangeMind { mind: MindId(2) },
                    OpDocument::Action { action: ActionId(202) },
                    OpDocument::WaitSignal { signal: SignalId(2) },
                    OpDocument::ChangeMind { mind: MindId(1) },
                    OpDocument::Action { action: ActionId(203) },
                    OpDocument::Succeed,
                ],
            },
            ProgramDocument { id: ProgramId(41), ops: vec![OpDocument::Succeed] },
        ],
    };
    proof {
        let p = document.programs@;
        assert(p[0].ops@ =~= multimind_script()[0].1);
        assert(p[1].ops@ =~= multimind_script()[1].1);
        assert(script_view(p) =~= multimind_script());
        reveal_with_fuel(ops_references, 10);
        assert(ops_references(p[0].ops@) =~= Seq::<ProgramId>::empty());
        assert(ops_references(p[1].ops@) =~= Seq::<ProgramId>::empty());
        lemma_well_formed_document_compiles(p);
    }
    document
}

/// The script of a preset.
pub fn script_document_for_preset(preset: ShowcasePreset) -> (document: ProgramCatalogDocument)
    ensures
        catalog_error(document.programs@) is None,
        document.programs@[0].id == ProgramId(MAIN_PROGRAM),
        script_view(document.programs@) == match preset {
            ShowcasePreset::DeathOfTick => death_of_tick_script(),
            ShowcasePreset::ShootemupBoss => shootemup_boss_script(),
            ShowcasePreset::MultiMind => multimind_script(),
        },
{
    match preset {
        ShowcasePreset::DeathOfTick => death_of_tick_script_document(),
        ShowcasePreset::ShootemupBoss => shootemup_boss_script_document(),
        ShowcasePreset::MultiMind => multimind_script_document(),
    }
}

/// Task slots of the showcase runtime.
pub const SHOWCASE_MAX_TASKS: usize = 16;

/// Signal queue entries of the showcase runtime.
pub const SHOWCASE_MAX_PENDING_SIGNALS: usize = 8;

/// One line the showcase host recorded: an action or a host call, and its text.
#[derive(Clone, Debug, PartialEq, Eq)]
pub struct ShowcaseAction {
    pub task_id: u32,
    pub action_id: u16,
    pub label: String,
}

/// A copy of `lines` (the labels copied by value).
fn copy_actions(lines: &Vec<ShowcaseAction>) -> (copy: Vec<ShowcaseAction>)
    ensures
        copy@ == lines@,
{
    let mut copy: Vec<ShowcaseAction> = Vec::new();
    let mut index: usize = 0;
    while index < lines.len()
        invariant
            index <= lines@.len(),
            copy@ == lines@.take(index as int),
        decreases lines@.len() - index,
    {
        let line = &lines[index];
        copy.push(
            ShowcaseAction { task_id: line.task_id, action_id: line.action_id, label: line.label.clone() },
        );
        proof {
            assert(copy@ =~= lines@.take(index + 1));
        }
        index = index + 1;
    }
    proof {
        assert(lines@.take(lines@.len() as int) =~= lines@);
    }
    copy
}

/// A copy of a catalog document.
fn copy_document(document: &ProgramCatalogDocument) -> (copy: ProgramCatalogDocument)
    ensures
        copy.programs@.len() == document.programs@.len(),
        forall|i: int|
            0 <= i < copy.programs@.len() ==> (#[trigger] copy.programs@[i]).id == document.programs@[i].id
                && copy.programs@[i].ops@ == document.programs@[i].ops@,
{
    let mut programs: Vec<ProgramDocument> = Vec::new();
    let mut i: usize = 0;
    while i < document.programs.len()
        invariant
            i <= document.programs@.len(),
            programs@.len() == i,
            forall|k: int|
                0 <= k < i ==> (#[trigger] programs@[k]).id == document.programs@[k].id
                    && programs@[k].ops@ == document.programs@[k].ops@,
        decreases document.programs@.len() - i,
    {
        let source = &document.programs[i];
        let mut ops: Vec<OpDocument> = Vec::new();
        let mut j: usize = 0;
        while j < source.ops.len()
            invariant
                j <= source.ops@.len(),
                ops@ == source.ops@.take(j as int),
            decreases source.ops@.len() - j,
        {
            ops.push(source.ops[j]);
            proof {
                assert(ops@ =~= source.ops@.take(j + 1));
            }
            j = j + 1;
        }
        proof {
            assert(source.ops@.take(source.ops@.len() as int) =~= source.ops@);
        }
        programs.push(ProgramDocument { id: source.id, ops });
        i = i + 1;
    }
    ProgramCatalogDocument { programs }
}

/// What the showcase host answers to a question, its mind and vulnerability given: a mind is
/// active when it is the active one; the exposed predicate holds while the boss is
/// vulnerable.
pub open spec fn host_answer(request: HostRequest, mind: MindId, vulnerable: bool) -> bool {
    match request {
        HostRequest::MindActive(m) => m == mind,
        HostRequest::PredicateReady(p) => p.0 == EXPOSED_PREDICATE && vulnerable,
        _ => false,
    }
}

/// The answers the showcase host gives to the questions among `requests`, in order.
pub open spec fn showcase_answers(requests: Seq<HostRequest>, mind: MindId, vulnerable: bool) -> Seq<
    bool,
>
    decreases requests.len(),
{
    if requests.len() == 0 {
        Seq::empty()
    } else {
        let rest = showcase_answers(requests.drop_last(), mind, vulnerable);
        let q = requests.last();
        if q is MindActive || q is PredicateReady {
            rest.push(host_answer(q, mind, vulnerable))
        } else {
            rest
        }
    }
}

/// A line as plain values: task, action and label.
pub open spec fn line_of(line: ShowcaseAction) -> (u32, u16, Seq<char>) {
    (line.task_id, line.action_id, line.label@)
}

/// Lines as plain values.
pub open spec fn line_log(lines: Seq<ShowcaseAction>) -> Seq<(u32, u16, Seq<char>)> {
    lines.map_values(|line: ShowcaseAction| line_of(line))
}

/// The lines the showcase host writes for `requests`: one per action or call, labelled.
pub open spec fn request_lines(requests: Seq<HostRequest>) -> Seq<(u32, u16, Seq<char>)>
    decreases requests.len(),
{
    if requests.len() == 0 {
        Seq::empty()
    } else {
        let rest = request_lines(requests.drop_last());
        match requests.last() {
            HostRequest::Action(task, action) => rest.push((task.0, action.0, action_text(action))),
            HostRequest::Call(task, call) => rest.push((task.0, call.id.0, call_text(call))),
            _ => rest,
        }
    }
}

/// Answers are given request by request.
pub proof fn lemma_showcase_answers_add(
    a: Seq<HostRequest>,
    b: Seq<HostRequest>,
    mind: MindId,
    vulnerable: bool,
)
    ensures
        showcase_answers(a + b, mind, vulnerable) == showcase_answers(a, mind, vulnerable)
            + showcase_answers(b, mind, vulnerable),
    decreases b.len(),
{
    if b.len() == 0 {
        assert(a + b =~= a);
        assert(showcase_answers(a, mind, vulnerable) + Seq::<bool>::empty() =~= showcase_answers(a, mind, vulnerable));
    } else {
        lemma_showcase_answers_add(a, b.drop_last(), mind, vulnerable);
        assert((a + b).drop_last() =~= a + b.drop_last());
        assert((a + b).last() == b.last());
        let x = showcase_answers(a, mind, vulnerable);
        let y = showcase_answers(b.drop_last(), mind, vulnerable);
        assert((x + y).push(host_answer(b.last(), mind, vulnerable)) =~= x + y.push(host_answer(b.last(), mind, vulnerable)));
    }
}

/// Lines are written request by request.
pub proof fn lemma_request_lines_add(a: Seq<HostRequest>, b: Seq<HostRequest>)
    ensures
        request_lines(a + b) == request_lines(a) + request_lines(b),
    decreases b.len(),
{
    if b.len() == 0 {
        assert(a + b =~= a);
        assert(request_lines(a) + Seq::<(u32, u16, Seq<char>)>::empty() =~= request_lines(a));
    } else {
        lemma_request_lines_add(a, b.drop_last());
        assert((a + b).drop_last() =~= a + b.drop_last());
        assert((a + b).last() == b.last());
        let x = request_lines(a);
        let y = request_lines(b.drop_last());
        match b.last() {
            HostRequest::Action(task, action) => {
                assert((x + y).push((task.0, action.0, action_text(action))) =~= x + y.push(
                    (task.0, action.0, action_text(action)),
                ));
            },
            HostRequest::Call(task, call) => {
                assert((x + y).push((task.0, call.id.0, call_text(call))) =~= x + y.push(
                    (task.0, call.id.0, call_text(call)),
                ));
            },
            _ => {},
        }
    }
}

/// The event of spawning the script's root task in an empty runtime.
pub open spec fn root_spawned_event() -> TraceEvent {
    TraceEvent::TaskSpawned {
        task: TaskId(1),
        program_id: ProgramId(MAIN_PROGRAM),
        parent: None,
        scope_root: TaskId(1),
    }
}

/// The host of the showcase: it records every action and call as a line, runs only the
/// active mind, and reports the exposed predicate when the boss is vulnerable.
pub struct ShowcaseHost {
    actions: Vec<ShowcaseAction>,
    active_mind: MindId,
    boss_vulnerable: bool,
    answered: Ghost<Seq<bool>>,
    asked: Ghost<Seq<HostRequest>>,
}

impl ShowcaseHost {
    pub closed spec fn lines(self) -> Seq<ShowcaseAction> {
        self.actions@
    }

    pub closed spec fn mind(self) -> MindId {
        self.active_mind
    }

    pub closed spec fn vulnerable(self) -> bool {
        self.boss_vulnerable
    }

    /// Hands out the lines written so far and starts a fresh record of requests and answers.
    fn take_lines(&mut self) -> (lines: Vec<ShowcaseAction>)
        ensures
            lines@ == old(self).lines(),
            final(self).lines() == Seq::<ShowcaseAction>::empty(),
            final(self).requests() == Seq::<HostRequest>::empty(),
            final(self).answers() == Seq::<bool>::empty(),
            final(self).mind() == old(self).mind(),
            final(self).vulnerable() == old(self).vulnerable(),
            final(self).inv(),
    {
        let mut lines = Vec::new();
        std::mem::swap(&mut lines, &mut self.actions);
        self.asked = Ghost(Seq::empty());
        self.answered = Ghost(Seq::empty());
        proof {
            assert(line_log(self.actions@) =~= Seq::<(u32, u16, Seq<char>)>::empty());
        }
        lines
    }

    /// Puts `lines` back in front of the lines written since.
    fn restore_lines(&mut self, lines: Vec<ShowcaseAction>)
        ensures
            final(self).lines() == lines@ + old(self).lines(),
            final(self).mind() == old(self).mind(),
            final(self).vulnerable() == old(self).vulnerable(),
    {
        let mut all = lines;
        all.append(&mut self.actions);
        self.actions = all;
    }

    /// A host with no lines, the root mind active and the boss not vulnerable.
    pub fn fresh() -> (host: Self)
        ensures
            host.lines() == Seq::<ShowcaseAction>::empty(),
            host.mind() == spec_root_mind(),
            !host.vulnerable(),
    {
        ShowcaseHost {
            actions: Vec::new(),
            active_mind: MindId(1),
            boss_vulnerable: false,
            answered: Ghost(Seq::empty()),
            asked: Ghost(Seq::empty()),
        }
    }
}

impl Host for ShowcaseHost {
    closed spec fn answers(&self) -> Seq<bool> {
        self.answered@
    }

    closed spec fn requests(&self) -> Seq<HostRequest> {
        self.asked@
    }

    /// The answers follow `host_answer`, and there is one line per action or call asked.
    closed spec fn inv(&self) -> bool {
        &&& self.answered@ == showcase_answers(self.asked@, self.active_mind, self.boss_vulnerable)
        &&& line_log(self.actions@) == request_lines(self.asked@)
    }

    closed spec fn setting(&self) -> Seq<int> {
        seq![self.active_mind.0 as int, if self.boss_vulnerable { 1int } else { 0int }]
    }

    fn on_action(&mut self, task: TaskId, action: ActionId)
        ensures
            final(self).lines().len() == old(self).lines().len() + 1,
            final(self).lines().drop_last() == old(self).lines(),
            final(self).lines().last().task_id == task.0,
            final(self).lines().last().action_id == action.0,
            final(self).lines().last().label@ == action_text(action),
            final(self).mind() == old(self).mind(),
            final(self).vulnerable() == old(self).vulnerable(),
    {
        let label = action_label(action);
        self.actions.push(ShowcaseAction { task_id: task.0, action_id: action.0, label });
        self.asked = Ghost(self.asked@.push(HostRequest::Action(task, action)));
        proof {
            assert(self.actions@.drop_last() =~= old(self).actions@);
            assert(self.asked@.drop_last() =~= old(self).asked@);
            assert(line_log(self.actions@) =~= line_log(old(self).actions@).push(
                (task.0, action.0, action_text(action)),
            ));
        }
    }

    fn on_call(&mut self, task: TaskId, call: HostCall)
        ensures
            final(self).lines().len() == old(self).lines().len() + 1,
            final(self).lines().drop_last() == old(self).lines(),
            final(self).lines().last().task_id == task.0,
            final(self).lines().last().action_id == call.id.0,
            final(self).lines().last().label@ == call_text(call),
            final(self).mind() == old(self).mind(),
            final(self).vulnerable() == old(self).vulnerable(),
    {
        let label = call_label(call);
        self.actions.push(ShowcaseAction { task_id: task.0, action_id: call.id.0, label });
        self.asked = Ghost(self.asked@.push(HostRequest::Call(task, call)));
        proof {
            assert(self.actions@.drop_last() =~= old(self).actions@);
            assert(self.asked@.drop_last() =~= old(self).asked@);
            assert(line_log(self.actions@) =~= line_log(old(self).actions@).push(
                (task.0, call.id.0, call_text(call)),
            ));
        }
    }

    fn is_mind_active(&mut self, mind: MindId) -> (active: bool)
        ensures
            active == (old(self).mind() == mind),
            final(self).lines() == old(self).lines(),
            final(self).mind() == old(self).mind(),
            final(self).vulnerable() == old(self).vulnerable(),
    {
        let active = self.active_mind == mind;
        self.answered = Ghost(self.answered@.push(active));
        self.asked = Ghost(self.asked@.push(HostRequest::MindActive(mind)));
        proof {
            assert(self.asked@.drop_last() =~= old(self).asked@);
        }
        active
    }

    fn query_ready(&mut self, predicate: PredicateId) -> (ready: bool)
        ensures
            ready == (predicate.0 == EXPOSED_PREDICATE && old(self).vulnerable()),
            final(self).lines() == old(self).lines(),
            final(self).mind() == old(self).mind(),
            final(self).vulnerable() == old(self).vulnerable(),
    {
        let ready = predicate.0 == EXPOSED_PREDICATE && self.boss_vulnerable;
        self.answered = Ghost(self.answered@.push(ready));
        self.asked = Ghost(self.asked@.push(HostRequest::PredicateReady(predicate)));
        proof {
            assert(self.asked@.drop_last() =~= old(self).asked@);
        }
        ready
    }
}

/// How a runtime error is written (as its `Debug` form).
pub open spec fn runtime_error_text(error: RuntimeError) -> Seq<char> {
    match error {
        RuntimeError::ProgramNotFound(program) => "ProgramNotFound(ProgramId("@ + decimal(
            program.0 as nat,
        ) + "))"@,
        RuntimeError::CapacityExceeded => "CapacityExceeded"@,
        RuntimeError::SignalQueueFull => "SignalQueueFull"@,
    }
}

/// `prefix` followed by how `error` is written.
fn runtime_error_message(prefix: &str, error: RuntimeError) -> (message: String)
    ensures
        message@ == prefix@ + runtime_error_text(error),
{
    let mut out = String::from_str(prefix);
    match error {
        RuntimeError::ProgramNotFound(program) => {
            out.append("ProgramNotFound(ProgramId(");
            push_decimal(&mut out, program.0 as u64);
            out.append("))");
            proof {
                assert(out@ =~= prefix@ + runtime_error_text(error));
            }
        },
        RuntimeError::CapacityExceeded => out.append("CapacityExceeded"),
        RuntimeError::SignalQueueFull => out.append("SignalQueueFull"),
    }
    out
}

/// The state of a showcase run with only the root task of the script spawned.
pub open spec fn root_spawned_state(s: RuntimeSnapshot<SHOWCASE_MAX_TASKS, SHOWCASE_MAX_PENDING_SIGNALS>) -> bool {
    let empty = RuntimeSnapshot::<SHOWCASE_MAX_TASKS, SHOWCASE_MAX_PENDING_SIGNALS>::spec_empty();
    &&& s.clock == 0
    &&& s.next_task_id == 1
    &&& s.pending_signals == empty.pending_signals
    &&& s.tasks@ == empty.tasks@.update(
        0,
        Some(spawned_record(TaskId(1), ProgramId(MAIN_PROGRAM), spec_root_mind(), None, None)),
    )
}

/// A task as the showcase lists it.
#[derive(Clone, Debug, PartialEq, Eq)]
pub struct ShowcaseTask {
    pub task_id: u32,
    pub program_id: u16,
    pub mind: u16,
    pub program_label: String,
    pub parent: Option<u32>,
    pub ip: usize,
    pub outcome: String,
    pub wait: String,
}

/// `shown` lists `task` under the names of `preset`.
pub open spec fn shows_task(task: TaskRecord, preset: ShowcasePreset, shown: ShowcaseTask) -> bool {
    &&& shown.task_id == task.id.0
    &&& shown.program_id == task.program_id.0
    &&& shown.mind == task.mind_id.0
    &&& shown.program_label@ == program_text(preset, task.program_id)
    &&& shown.parent == (match task.parent {
        Some(parent) => Some(parent.0),
        None => None::<u32>,
    })
    &&& shown.ip == task.ip
    &&& shown.outcome@ == outcome_kind_text(task.outcome)
    &&& shown.wait@ == wait_label_text(task.wait, preset)
}

/// How the showcase lists a task (see `shows_task`).
pub fn showcase_task(task: TaskRecord, preset: ShowcasePreset) -> (shown: ShowcaseTask)
    ensures
        shows_task(task, preset, shown),
{
    ShowcaseTask {
        task_id: task.id.0,
        program_id: task.program_id.0,
        mind: task.mind_id.0,
        program_label: program_label(preset, task.program_id),
        parent: match task.parent {
            Some(parent) => Some(parent.0),
            None => None,
        },
        ip: task.ip,
        outcome: String::from_str(outcome_kind(task.outcome)),
        wait: wait_reason_label(task.wait, preset),
    }
}

/// What a front end shows of a showcase run.
#[derive(Clone, Debug, PartialEq, Eq)]
pub struct ShowcaseView {
    pub preset: String,
    pub title: String,
    pub subtitle: String,
    pub clock: u64,
    pub beat: String,
    pub active_mind: u16,
    pub boss_vulnerable: bool,
    pub tasks: Vec<ShowcaseTask>,
    pub actions: Vec<ShowcaseAction>,
    pub trace: String,
    pub snapshot_hint: String,
}

/// Everything needed to resume a showcase run.
#[derive(Clone, Debug, PartialEq, Eq)]
pub struct SnapshotEnvelope {
    pub preset: ShowcasePreset,
    pub custom_script_loaded: bool,
    pub script: ProgramCatalogDocument,
    pub runtime: RuntimeSnapshot<SHOWCASE_MAX_TASKS, SHOWCASE_MAX_PENDING_SIGNALS>,
    pub active_mind: u16,
    pub boss_vulnerable: bool,
    pub actions: Vec<ShowcaseAction>,
}

/// The first slot, from `i` on, holding a task with the id `id`.
pub open spec fn task_from(tasks: Seq<Option<TaskRecord>>, id: TaskId, i: int) -> Option<TaskRecord>
    decreases tasks.len() - i,
{
    if i < 0 || i >= tasks.len() {
        None
    } else {
        match tasks[i] {
            Some(t) => if t.id == id {
                Some(t)
            } else {
                task_from(tasks, id, i + 1)
            },
            None => task_from(tasks, id, i + 1),
        }
    }
}

/// The beat line for a root task parked on a mind that is not active.
pub open spec fn parked_text(preset: ShowcasePreset, mind: MindId) -> Seq<char> {
    if preset == ShowcasePreset::MultiMind {
        "The "@ + mind_text(preset, mind) + " is parked until the host activates it."@
    } else {
        "Mind "@ + decimal(mind.0 as nat) + " is parked until mind "@ + decimal(mind.0 as nat)
            + " becomes active."@
    }
}

/// The beat line for what the root task waits on.
pub open spec fn wait_beat_text(preset: ShowcasePreset, wait: WaitReason) -> Seq<char> {
    match wait {
        WaitReason::Ready => "Root is ready to advance."@,
        WaitReason::Signal(signal) => "Awaiting signal: "@ + signal_text(preset, signal),
        WaitReason::Predicate(predicate) => "Awaiting predicate: "@ + predicate_text(preset, predicate),
        WaitReason::SignalOrTicks { signal, until_tick } => "Awaiting "@ + signal_text(preset, signal)
            + " or timeout at clock "@ + decimal(until_tick as nat) + "."@,
        WaitReason::RaceOrTicks { .. } => match preset {
            ShowcasePreset::DeathOfTick => "Two branches are racing against the clock. Resolve one or let time decide."@,
            ShowcasePreset::ShootemupBoss => "The core break and enrage window are racing against the clock."@,
            ShowcasePreset::MultiMind => "Two branches are racing against the clock."@,
        },
        WaitReason::Timeout { child, until_tick } => "Child task "@ + decimal(child.0 as nat)
            + " must finish before clock "@ + decimal(until_tick as nat) + "."@,
        WaitReason::RepeatUntilPredicate { predicate, .. } => "Repeating until predicate is ready: "@
            + predicate_text(preset, predicate),
        WaitReason::ChildrenAll => "Concurrent routines are still resolving."@,
        WaitReason::ChildrenAny => "Waiting for the first concurrent routine to resolve."@,
        WaitReason::Race { .. } => "Two branches are racing. Pick the fate of the scene."@,
        WaitReason::Ticks { until_tick } => "Advancing toward clock "@ + decimal(until_tick as nat)
            + "."@,
    }
}

/// The beat line: the root task parked on an inactive mind first, then the latest line
/// the host recorded, then what the root task waits on.
pub open spec fn beat_text(
    preset: ShowcasePreset,
    tasks: Seq<Option<TaskRecord>>,
    active_mind: MindId,
    lines: Seq<ShowcaseAction>,
) -> Seq<char> {
    match task_from(tasks, TaskId(1), 0) {
        Some(root) => if root.mind_id != active_mind {
            parked_text(preset, root.mind_id)
        } else if lines.len() > 0 {
            lines.last().label@
        } else {
            wait_beat_text(preset, root.wait)
        },
        None => if lines.len() > 0 {
            lines.last().label@
        } else {
            "Showcase ready."@
        },
    }
}

fn wait_beat_line(preset: ShowcasePreset, wait: WaitReason) -> (line: String)
    ensures
        line@ == wait_beat_text(preset, wait),
{
    match wait {
        WaitReason::Ready => String::from_str("Root is ready to advance."),
        WaitReason::Signal(signal) => {
            let mut out = String::from_str("Awaiting signal: ");
            let name = signal_label(preset, signal);
            out.append(name.as_str());
            out
        },
        WaitReason::Predicate(predicate) => {
            let mut out = String::from_str("Awaiting predicate: ");
            let name = predicate_label(preset, predicate);
            out.append(name.as_str());
            out
        },
        WaitReason::SignalOrTicks { signal, until_tick } => {
            let mut out = String::from_str("Awaiting ");
            let name = signal_label(preset, signal);
            out.append(name.as_str());
            out.append(" or timeout at clock ");
            push_decimal(&mut out, until_tick);
            out.append(".");
            out
        },
        WaitReason::RaceOrTicks { .. } => match preset {
            ShowcasePreset::DeathOfTick => String::from_str(
                "Two branches are racing against the clock. Resolve one or let time decide.",
            ),
            ShowcasePreset::ShootemupBoss => String::from_str(
                "The core break and enrage window are racing against the clock.",
            ),
            ShowcasePreset::MultiMind => String::from_str("Two branches are racing against the clock."),
        },
        WaitReason::Timeout { child, until_tick } => {
            let mut out = String::from_str("Child task ");
            push_decimal(&mut out, child.0 as u64);
            out.append(" must finish before clock ");
            push_decimal(&mut out, until_tick);
            out.append(".");
            out
        },
        WaitReason::RepeatUntilPredicate { predicate, .. } => {
            let mut out = String::from_str("Repeating until predicate is ready: ");
            let name = predicate_label(preset, predicate);
            out.append(name.as_str());
            out
        },
        WaitReason::ChildrenAll => String::from_str("Concurrent routines are still resolving."),
        WaitReason::ChildrenAny => String::from_str(
            "Waiting for the first concurrent routine to resolve.",
        ),
        WaitReason::Race { .. } => String::from_str(
            "Two branches are racing. Pick the fate of the scene.",
        ),
        WaitReason::Ticks { until_tick } => {
            let mut out = String::from_str("Advancing toward clock ");
            push_decimal(&mut out, until_tick);
            out.append(".");
            out
        },
    }
}

/// Whether `catalog` has the root program of the showcase scripts.
pub open spec fn catalog_has_main(catalog: OwnedProgramCatalog) -> bool {
    exists|i: int|
        0 <= i < catalog.program_list().len() && (#[trigger] catalog.program_list()[i]).program_id()
            == ProgramId(MAIN_PROGRAM)
}

/// A showcase run: a script, the catalog compiled from it, the runtime state, the host and
/// the trace.
pub struct ShowcaseState {
    preset: ShowcasePreset,
    custom_script_loaded: bool,
    script: ProgramCatalogDocument,
    catalog: OwnedProgramCatalog,
    snapshot: RuntimeSnapshot<SHOWCASE_MAX_TASKS, SHOWCASE_MAX_PENDING_SIGNALS>,
    host: ShowcaseHost,
    trace: TraceLog,
}

impl ShowcaseState {
    /// The runtime state is well formed (every operation keeps it so).
    pub closed spec fn wf(self) -> bool {
        self.snapshot.wf()
    }

    pub closed spec fn current_preset(self) -> ShowcasePreset {
        self.preset
    }

    pub closed spec fn custom_script(self) -> bool {
        self.custom_script_loaded
    }

    pub closed spec fn script_programs(self) -> Seq<ProgramDocument> {
        self.script.programs@
    }

    /// Whether the compiled catalog has the script's root program.
    pub closed spec fn has_main(self) -> bool {
        catalog_has_main(self.catalog)
    }

    pub closed spec fn runtime_state(self) -> RuntimeSnapshot<
        SHOWCASE_MAX_TASKS,
        SHOWCASE_MAX_PENDING_SIGNALS,
    > {
        self.snapshot
    }

    pub closed spec fn active_mind(self) -> MindId {
        self.host.active_mind
    }

    pub closed spec fn boss_vulnerable(self) -> bool {
        self.host.boss_vulnerable
    }

    pub closed spec fn action_lines(self) -> Seq<ShowcaseAction> {
        self.host.actions@
    }

    /// `programs` are the compiled programs of the script, in order.
    pub closed spec fn runs(self, programs: Seq<Program>) -> bool {
        &&& programs.len() == self.catalog.program_list().len()
        &&& forall|i: int|
            0 <= i < programs.len() ==> (#[trigger] programs[i]).id == self.catalog.program_list()[i].program_id()
                && programs[i].ops@ == self.catalog.program_list()[i].op_seq()
    }

    pub closed spec fn trace_events(self) -> Seq<TraceEvent> {
        self.trace.event_seq()
    }

    /// The encounter preset, its root task spawned.
    pub fn new() -> (state: Self)
        ensures
            state.wf(),
            state.current_preset() == ShowcasePreset::DeathOfTick,
            !state.custom_script(),
            catalog_error(state.script_programs()) is None,
            state.has_main(),
            root_spawned_state(state.runtime_state()),
            state.active_mind() == spec_root_mind(),
            !state.boss_vulnerable(),
            state.action_lines() == Seq::<ShowcaseAction>::empty(),
    {
        let preset = ShowcasePreset::DeathOfTick;
        let script = script_document_for_preset(preset);
        let catalog = Self::compile_known_good(&script);
        let snapshot = RuntimeSnapshot::empty();
        proof {
            crate::snapshot::lemma_slot_sum_all_free(snapshot.tasks@);
        }
        let mut state = ShowcaseState {
            preset,
            custom_script_loaded: false,
            script,
            catalog,
            snapshot,
            host: ShowcaseHost::fresh(),
            trace: TraceLog::new(),
        };
        proof {
            let i = choose|i: int|
                0 <= i < state.catalog.program_list().len() && (
                #[trigger] state.catalog.program_list()[i]).program_id() == ProgramId(MAIN_PROGRAM);
            assert(state.has_main());
        }
        let _ = state.spawn_root();
        state
    }

    /// Compiles a script that is known to compile, with its root program first.
    fn compile_known_good(script: &ProgramCatalogDocument) -> (catalog: OwnedProgramCatalog)
        requires
            catalog_error(script.programs@) is None,
            script.programs@[0].id == ProgramId(MAIN_PROGRAM),
        ensures
            exists|i: int|
                0 <= i < catalog.program_list().len() && (
                #[trigger] catalog.program_list()[i]).program_id() == ProgramId(MAIN_PROGRAM),
    {
        match script.compile() {
            Ok(catalog) => {
                proof {
                    assert(compiled(script.programs@[0], catalog.program_list()[0]));
                }
                catalog
            },
            Err(_) => {
                proof {
                    assert(false);
                }
                OwnedProgramCatalog::new(Vec::new())
            },
        }
    }

    /// Spawns the root program on an empty runtime state; that fails only when the
    /// catalog lacks the root program.
    fn spawn_root(&mut self) -> (r: Result<(), String>)
        requires
            old(self).snapshot == RuntimeSnapshot::<SHOWCASE_MAX_TASKS, SHOWCASE_MAX_PENDING_SIGNALS>::spec_empty(),
        ensures
            final(self).wf(),
            old(self).has_main() ==> r is Ok && root_spawned_state(final(self).snapshot),
            !old(self).has_main() ==> (r matches Err(message) && message@ == "spawn failed: "@
                + runtime_error_text(RuntimeError::ProgramNotFound(ProgramId(MAIN_PROGRAM))))
                && final(self).snapshot == old(self).snapshot,
            final(self).preset == old(self).preset,
            final(self).custom_script_loaded == old(self).custom_script_loaded,
            final(self).script == old(self).script,
            final(self).catalog == old(self).catalog,
            final(self).host == old(self).host,
            final(self).trace.event_seq() == if old(self).has_main() {
                old(self).trace.event_seq().push(root_spawned_event())
            } else {
                old(self).trace.event_seq()
            },
    {
        proof {
            crate::snapshot::lemma_slot_sum_all_free(self.snapshot.tasks@);
        }
        let programs = self.catalog.borrowed_programs();
        let catalog = ProgramCatalog::new(programs.as_slice());
        let mut runtime: Runtime<'_, SHOWCASE_MAX_TASKS, SHOWCASE_MAX_PENDING_SIGNALS> =
            Runtime::from_snapshot(catalog, self.snapshot);
        proof {
            lemma_find_program_from(programs@, ProgramId(MAIN_PROGRAM), 0);
            if self.has_main() {
                let i = choose|i: int|
                    0 <= i < self.catalog.program_list().len() && (
                    #[trigger] self.catalog.program_list()[i]).program_id() == ProgramId(MAIN_PROGRAM);
                assert(programs@[i].id == ProgramId(MAIN_PROGRAM));
            } else {
                if find_program(programs@, ProgramId(MAIN_PROGRAM)) is Some {
                    let i = find_program(programs@, ProgramId(MAIN_PROGRAM)).unwrap();
                    assert(self.catalog.program_list()[i].program_id() == ProgramId(MAIN_PROGRAM));
                }
            }
            assert(runtime.state().tasks@[0] is None);
        }
        let r = runtime.spawn_traced(ProgramId(MAIN_PROGRAM), &mut self.trace);
        self.snapshot = runtime.snapshot();
        proof {
            let empty = RuntimeSnapshot::<SHOWCASE_MAX_TASKS, SHOWCASE_MAX_PENDING_SIGNALS>::spec_empty();
            assert forall|k: int| #[trigger] crate::runtime::is_first_free(empty.tasks@, k) implies k == 0 by {
                if k > 0 {
                    assert(empty.tasks@[0] is None);
                }
            }
        }
        match r {
            Ok(_) => Ok(()),
            Err(error) => Err(runtime_error_message("spawn failed: ", error)),
        }
    }

    /// Empties the runtime state, the host's lines and the trace, and spawns the root
    /// program again (which the trace records).
    fn reset_runtime(&mut self) -> (r: Result<(), String>)
        ensures
            final(self).wf(),
            old(self).has_main() ==> r is Ok && root_spawned_state(final(self).snapshot),
            !old(self).has_main() ==> (r matches Err(message) && message@ == "spawn failed: "@
                + runtime_error_text(RuntimeError::ProgramNotFound(ProgramId(MAIN_PROGRAM)))),
            final(self).preset == old(self).preset,
            final(self).custom_script_loaded == old(self).custom_script_loaded,
            final(self).script == old(self).script,
            final(self).catalog == old(self).catalog,
            final(self).host.lines() == Seq::<ShowcaseAction>::empty(),
            final(self).host.mind() == spec_root_mind(),
            !final(self).host.vulnerable(),
            final(self).trace.event_seq() == if old(self).has_main() {
                seq![root_spawned_event()]
            } else {
                Seq::<TraceEvent>::empty()
            },
    {
        self.snapshot = RuntimeSnapshot::empty();
        self.host = ShowcaseHost::fresh();
        self.trace.clear();
        self.spawn_root()
    }

    /// Restarts the current script from its first op, with a fresh host and trace.
    pub fn reset(&mut self) -> (r: Result<(), String>)
        requires
            old(self).wf(),
        ensures
            final(self).wf(),
            old(self).has_main() ==> r is Ok && root_spawned_state(final(self).runtime_state()),
            !old(self).has_main() ==> (r matches Err(message) && message@ == "spawn failed: "@
                + runtime_error_text(RuntimeError::ProgramNotFound(ProgramId(MAIN_PROGRAM)))),
            final(self).current_preset() == old(self).current_preset(),
            final(self).custom_script() == old(self).custom_script(),
            final(self).script_programs() == old(self).script_programs(),
            final(self).has_main() == old(self).has_main(),
            final(self).action_lines() == Seq::<ShowcaseAction>::empty(),
            final(self).active_mind() == spec_root_mind(),
            !final(self).boss_vulnerable(),
            final(self).trace_events() == if old(self).has_main() {
                seq![root_spawned_event()]
            } else {
                Seq::<TraceEvent>::empty()
            },
    {
        self.reset_runtime()
    }

    /// Loads the script of `preset` and starts it.
    fn load_builtin_preset(&mut self, preset: ShowcasePreset) -> (r: Result<(), String>)
        ensures
            r is Ok,
            final(self).wf(),
            root_spawned_state(final(self).snapshot),
            final(self).preset == preset,
            !final(self).custom_script_loaded,
            catalog_error(final(self).script.programs@) is None,
            final(self).has_main(),
            final(self).host.lines() == Seq::<ShowcaseAction>::empty(),
            final(self).host.mind() == spec_root_mind(),
            !final(self).host.vulnerable(),
    {
        let script = script_document_for_preset(preset);
        let catalog = Self::compile_known_good(&script);
        self.preset = preset;
        self.custom_script_loaded = false;
        self.script = script;
        self.catalog = catalog;
        proof {
            let i = choose|i: int|
                0 <= i < self.catalog.program_list().len() && (
                #[trigger] self.catalog.program_list()[i]).program_id() == ProgramId(MAIN_PROGRAM);
            assert(self.has_main());
        }
        self.reset_runtime()
    }

    /// Reloads the built-in script of the current preset and starts it.
    pub fn reset_script(&mut self) -> (r: Result<(), String>)
        requires
            old(self).wf(),
        ensures
            r is Ok,
            final(self).wf(),
            root_spawned_state(final(self).runtime_state()),
            final(self).current_preset() == old(self).current_preset(),
            !final(self).custom_script(),
            catalog_error(final(self).script_programs()) is None,
            final(self).has_main(),
            final(self).action_lines() == Seq::<ShowcaseAction>::empty(),
            final(self).active_mind() == spec_root_mind(),
            !final(self).boss_vulnerable(),
    {
        let preset = self.preset;
        self.load_builtin_preset(preset)
    }

    /// Selects the preset that `name` names (see `preset_named`) and starts its script;
    /// an unknown name changes nothing.
    pub fn select_preset(&mut self, name: &str) -> (r: Result<(), String>)
        requires
            old(self).wf(),
        ensures
            final(self).wf(),
            match preset_named(name@) {
                Some(preset) => {
                    &&& r is Ok
                    &&& root_spawned_state(final(self).runtime_state())
                    &&& final(self).current_preset() == preset
                    &&& !final(self).custom_script()
                    &&& catalog_error(final(self).script_programs()) is None
                    &&& final(self).has_main()
                    &&& final(self).action_lines() == Seq::<ShowcaseAction>::empty()
                    &&& final(self).active_mind() == spec_root_mind()
                    &&& !final(self).boss_vulnerable()
                },
                None => (r matches Err(message) && message@ == "unknown preset: "@ + name@)
                    && *final(self) == *old(self),
            },
    {
        match ShowcasePreset::parse(name) {
            Ok(preset) => self.load_builtin_preset(preset),
            Err(message) => Err(message),
        }
    }

    /// The same as `select_preset`.
    pub fn load_preset(&mut self, name: &str) -> (r: Result<(), String>)
        requires
            old(self).wf(),
        ensures
            final(self).wf(),
            match preset_named(name@) {
                Some(preset) => {
                    &&& r is Ok
                    &&& root_spawned_state(final(self).runtime_state())
                    &&& final(self).current_preset() == preset
                    &&& !final(self).custom_script()
                    &&& catalog_error(final(self).script_programs()) is None
                    &&& final(self).has_main()
                    &&& final(self).action_lines() == Seq::<ShowcaseAction>::empty()
                    &&& final(self).active_mind() == spec_root_mind()
                    &&& !final(self).boss_vulnerable()
                },
                None => (r matches Err(message) && message@ == "unknown preset: "@ + name@)
                    && *final(self) == *old(self),
            },
    {
        self.select_preset(name)
    }

    /// The script being run.
    pub fn script(&self) -> (script: &ProgramCatalogDocument)
        ensures
            script.programs@ == self.script_programs(),
    {
        &self.script
    }

    /// Runs `script` from the start instead of the built-in one. A script that does not
    /// compile, or has no root program, is refused and changes nothing.
    pub fn load_script(&mut self, script: ProgramCatalogDocument) -> (r: Result<(), String>)
        requires
            old(self).wf(),
        ensures
            final(self).wf(),
            catalog_error(script.programs@) matches Some(error) ==> (r matches Err(message)
                && message@ == "script compile failed: "@ + compile_error_text(error))
                && *final(self) == *old(self),
            catalog_error(script.programs@) is None && (forall|i: int|
                0 <= i < script.programs@.len() ==> (#[trigger] script.programs@[i]).id
                    != ProgramId(MAIN_PROGRAM)) ==> (r matches Err(message) && message@
                == "script compile failed: root program 1 is missing"@) && *final(self) == *old(
                self,
            ),
            catalog_error(script.programs@) is None && (exists|i: int|
                0 <= i < script.programs@.len() && (#[trigger] script.programs@[i]).id
                    == ProgramId(MAIN_PROGRAM)) ==> {
                &&& r is Ok
                &&& root_spawned_state(final(self).runtime_state())
                &&& final(self).custom_script()
                &&& final(self).script_programs() == script.programs@
                &&& final(self).current_preset() == old(self).current_preset()
                &&& final(self).has_main()
                &&& final(self).action_lines() == Seq::<ShowcaseAction>::empty()
                &&& final(self).active_mind() == spec_root_mind()
                &&& !final(self).boss_vulnerable()
            },
    {
        let catalog = match script.compile() {
            Ok(catalog) => catalog,
            Err(error) => {
                let mut message = String::from_str("script compile failed: ");
                let label = compile_error_label(error);
                message.append(label.as_str());
                return Err(message);
            },
        };
        let ghost docs = script.programs@;
        if catalog.get(ProgramId(MAIN_PROGRAM)).is_none() {
            proof {
                assert forall|i: int| 0 <= i < docs.len() implies (#[trigger] docs[i]).id != ProgramId(
                    MAIN_PROGRAM,
                ) by {
                    assert(compiled(docs[i], catalog.program_list()[i]));
                }
            }
            return Err(String::from_str("script compile failed: root program 1 is missing"));
        }
        proof {
            let i = choose|i: int|
                0 <= i < catalog.program_list().len() && catalog.program_list()[i]
                    == catalog.program_list()[i] && catalog.program_list()[i].program_id() == ProgramId(
                    MAIN_PROGRAM,
                );
            assert(compiled(docs[i], catalog.program_list()[i]));
            assert(docs[i].id == ProgramId(MAIN_PROGRAM));
        }
        self.custom_script_loaded = true;
        self.script = script;
        self.catalog = catalog;
        proof {
            let i = choose|i: int|
                0 <= i < self.catalog.program_list().len() && self.catalog.program_list()[i].program_id()
                    == ProgramId(MAIN_PROGRAM);
            assert(self.catalog.program_list()[i].program_id() == ProgramId(MAIN_PROGRAM));
            assert(self.has_main());
        }
        self.reset_runtime()
    }

    /// Runs one tick of the script: the runtime's tick (see `tick_run`) over the script's
    /// programs, the host answering by its active mind and the boss's vulnerability; each
    /// action or call the tick requests adds its line.
    pub fn tick(&mut self) -> (r: Result<(), String>)
        requires
            old(self).wf(),
        ensures
            final(self).wf(),
            exists|programs: Seq<Program>, log: Seq<Effect>, res: Result<StepReport, RuntimeError>|
                #[trigger] tick_run(
                    old(self).runtime_state(),
                    final(self).runtime_state(),
                    programs,
                    showcase_answers(host_part(log), old(self).active_mind(), old(self).boss_vulnerable()),
                    log,
                    res,
                ) && old(self).runs(programs) && line_log(final(self).action_lines()) == line_log(
                    old(self).action_lines(),
                ) + request_lines(host_part(log)) && final(self).trace_events() == match res {
                    Ok(report) => old(self).trace_events().push(
                        TraceEvent::TickStarted { clock: old(self).runtime_state().clock.saturating_add(1) },
                    ) + trace_part(log).push(TraceEvent::TickCompleted { report }),
                    Err(_) => old(self).trace_events().push(
                        TraceEvent::TickStarted { clock: old(self).runtime_state().clock.saturating_add(1) },
                    ) + trace_part(log),
                } && (r is Ok <==> res is Ok) && (res matches Err(error) ==> r matches Err(message)
                    && message@ == "tick failed: "@ + runtime_error_text(error)),
            final(self).active_mind() == old(self).active_mind(),
            final(self).boss_vulnerable() == old(self).boss_vulnerable(),
            r is Ok ==> exists|report: crate::runtime::StepReport|
                tick_relation(old(self).runtime_state(), final(self).runtime_state(), Ok(report)),
            r matches Err(message) ==> exists|error: RuntimeError|
                tick_relation(old(self).runtime_state(), final(self).runtime_state(), Err(error))
                    && message@ == "tick failed: "@ + runtime_error_text(error),
            final(self).current_preset() == old(self).current_preset(),
            final(self).custom_script() == old(self).custom_script(),
            final(self).script_programs() == old(self).script_programs(),
            final(self).has_main() == old(self).has_main(),
    {
        let programs = self.catalog.borrowed_programs();
        let catalog = ProgramCatalog::new(programs.as_slice());
        let mut runtime: Runtime<'_, SHOWCASE_MAX_TASKS, SHOWCASE_MAX_PENDING_SIGNALS> =
            Runtime::from_snapshot(catalog, self.snapshot);
        let kept = self.host.take_lines();
        let ghost h0 = self.host;
        let ghost rt0 = runtime;
        let r = runtime.tick_traced(&mut self.host, &mut self.trace);
        self.snapshot = runtime.snapshot();
        let ghost (answers, log) = choose|answers: Seq<bool>, log: Seq<Effect>|
            #[trigger] Runtime::ticked(rt0, runtime, answers, log, r) && self.host.answers()
                == h0.answers() + answers && self.host.requests() == h0.requests() + host_part(log)
                && self.trace.event_seq() == match r {
                Ok(report) => old(self).trace.event_seq().push(
                    TraceEvent::TickStarted { clock: rt0.state().clock.saturating_add(1) },
                ) + trace_part(log).push(TraceEvent::TickCompleted { report }),
                Err(_) => old(self).trace.event_seq().push(
                    TraceEvent::TickStarted { clock: rt0.state().clock.saturating_add(1) },
                ) + trace_part(log),
            };
        let ghost requests = host_part(log);
        proof {
            assert(requests =~= self.host.requests());
            assert(answers =~= self.host.answers());
            assert(self.host.setting()[0] == h0.setting()[0]);
            assert(self.host.setting()[1] == h0.setting()[1]);
            assert(self.host.active_mind == h0.active_mind);
            assert(self.host.boss_vulnerable == h0.boss_vulnerable);
            assert(rt0.programs_seq() == programs@);
            assert(old(self).runs(programs@));
            assert(tick_run(
                old(self).runtime_state(),
                self.runtime_state(),
                programs@,
                showcase_answers(requests, old(self).active_mind(), old(self).boss_vulnerable()),
                log,
                r,
            ));
        }
        let ghost new_lines = self.host.actions@;
        self.host.restore_lines(kept);
        proof {
            assert(line_log(kept@ + new_lines) =~= line_log(kept@) + line_log(new_lines));
            assert(line_log(new_lines) == request_lines(requests));
            assert(line_log(self.action_lines()) == line_log(old(self).action_lines()) + request_lines(requests));
            assert(tick_run(
                old(self).runtime_state(),
                self.runtime_state(),
                programs@,
                showcase_answers(requests, old(self).active_mind(), old(self).boss_vulnerable()),
                log,
                r,
            ));
            assert(old(self).runs(programs@));
            assert(exists|programs: Seq<Program>, log: Seq<Effect>, res: Result<StepReport, RuntimeError>|
                #[trigger] tick_run(
                    old(self).runtime_state(),
                    self.runtime_state(),
                    programs,
                    showcase_answers(host_part(log), old(self).active_mind(), old(self).boss_vulnerable()),
                    log,
                    res,
                ) && old(self).runs(programs) && line_log(self.action_lines()) == line_log(
                    old(self).action_lines(),
                ) + request_lines(host_part(log)) && res == r);
        }
        match r {
            Ok(report) => {
                proof {
                    assert(tick_relation(old(self).runtime_state(), self.runtime_state(), Ok(report)));
                }
                Ok(())
            },
            Err(error) => Err(runtime_error_message("tick failed: ", error)),
        }
    }

    /// Queues a signal for the next tick (see `queue_relation`).
    pub fn emit_signal(&mut self, signal: SignalId) -> (r: Result<(), String>)
        requires
            old(self).wf(),
        ensures
            final(self).wf(),
            r is Ok ==> queue_relation(old(self).runtime_state(), final(self).runtime_state(), signal, Ok(())),
            r matches Err(message) ==> queue_relation(
                old(self).runtime_state(),
                final(self).runtime_state(),
                signal,
                Err(RuntimeError::SignalQueueFull),
            ) && message@ == "emit signal failed: "@ + runtime_error_text(RuntimeError::SignalQueueFull),
            final(self).current_preset() == old(self).current_preset(),
            final(self).custom_script() == old(self).custom_script(),
            final(self).script_programs() == old(self).script_programs(),
            final(self).has_main() == old(self).has_main(),
            final(self).active_mind() == old(self).active_mind(),
            final(self).boss_vulnerable() == old(self).boss_vulnerable(),
            final(self).action_lines() == old(self).action_lines(),
    {
        let programs = self.catalog.borrowed_programs();
        let catalog = ProgramCatalog::new(programs.as_slice());
        let mut runtime: Runtime<'_, SHOWCASE_MAX_TASKS, SHOWCASE_MAX_PENDING_SIGNALS> =
            Runtime::from_snapshot(catalog, self.snapshot);
        let r = runtime.emit_signal_traced(signal, &mut self.trace);
        self.snapshot = runtime.snapshot();
        match r {
            Ok(()) => Ok(()),
            Err(error) => Err(runtime_error_message("emit signal failed: ", error)),
        }
    }

    pub fn set_boss_vulnerable(&mut self, ready: bool)
        requires
            old(self).wf(),
        ensures
            final(self).wf(),
            final(self).boss_vulnerable() == ready,
            final(self).runtime_state() == old(self).runtime_state(),
            final(self).active_mind() == old(self).active_mind(),
            final(self).action_lines() == old(self).action_lines(),
            final(self).current_preset() == old(self).current_preset(),
            final(self).script_programs() == old(self).script_programs(),
            final(self).has_main() == old(self).has_main(),
    {
        self.host.boss_vulnerable = ready;
    }

    pub fn set_active_mind(&mut self, mind: MindId)
        requires
            old(self).wf(),
        ensures
            final(self).wf(),
            final(self).active_mind() == mind,
            final(self).runtime_state() == old(self).runtime_state(),
            final(self).boss_vulnerable() == old(self).boss_vulnerable(),
            final(self).action_lines() == old(self).action_lines(),
            final(self).current_preset() == old(self).current_preset(),
            final(self).script_programs() == old(self).script_programs(),
            final(self).has_main() == old(self).has_main(),
    {
        self.host.active_mind = mind;
    }

    /// Everything needed to resume this run.
    pub fn save_snapshot(&self) -> (envelope: SnapshotEnvelope)
        ensures
            envelope.preset == self.current_preset(),
            envelope.custom_script_loaded == self.custom_script(),
            envelope.script.programs@.len() == self.script_programs().len(),
            forall|i: int|
                0 <= i < envelope.script.programs@.len() ==> (#[trigger] envelope.script.programs@[i]).id
                    == self.script_programs()[i].id && envelope.script.programs@[i].ops@
                    == self.script_programs()[i].ops@,
            envelope.runtime == self.runtime_state(),
            envelope.active_mind == self.active_mind().0,
            envelope.boss_vulnerable == self.boss_vulnerable(),
            envelope.actions@ == self.action_lines(),
    {
        SnapshotEnvelope {
            preset: self.preset,
            custom_script_loaded: self.custom_script_loaded,
            script: copy_document(&self.script),
            runtime: self.snapshot,
            active_mind: self.host.active_mind.0,
            boss_vulnerable: self.host.boss_vulnerable,
            actions: copy_actions(&self.host.actions),
        }
    }

    /// The runtime state as a snapshot document.
    pub fn export_cli_runtime_snapshot(&self) -> (document: SnapshotDocument)
        ensures
            document.clock == self.runtime_state().clock,
            document.next_task_id == self.runtime_state().next_task_id,
            document.tasks@ == self.runtime_state().tasks@,
            document.pending_signals@ == self.runtime_state().pending_signals@,
    {
        let mut tasks: Vec<Option<TaskRecord>> = Vec::new();
        let mut i: usize = 0;
        while i < SHOWCASE_MAX_TASKS
            invariant
                i <= SHOWCASE_MAX_TASKS,
                tasks@ == self.snapshot.tasks@.take(i as int),
            decreases SHOWCASE_MAX_TASKS - i,
        {
            tasks.push(self.snapshot.tasks[i]);
            proof {
                assert(tasks@ =~= self.snapshot.tasks@.take(i + 1));
            }
            i = i + 1;
        }
        let mut pending: Vec<Option<SignalId>> = Vec::new();
        let mut j: usize = 0;
        while j < SHOWCASE_MAX_PENDING_SIGNALS
            invariant
                j <= SHOWCASE_MAX_PENDING_SIGNALS,
                pending@ == self.snapshot.pending_signals@.take(j as int),
            decreases SHOWCASE_MAX_PENDING_SIGNALS - j,
        {
            pending.push(self.snapshot.pending_signals[j]);
            proof {
                assert(pending@ =~= self.snapshot.pending_signals@.take(j + 1));
            }
            j = j + 1;
        }
        proof {
            assert(self.snapshot.tasks@.take(SHOWCASE_MAX_TASKS as int) =~= self.snapshot.tasks@);
            assert(self.snapshot.pending_signals@.take(SHOWCASE_MAX_PENDING_SIGNALS as int)
                =~= self.snapshot.pending_signals@);
        }
        SnapshotDocument {
            clock: self.snapshot.clock,
            next_task_id: self.snapshot.next_task_id,
            tasks,
            pending_signals: pending,
        }
    }

    /// Resumes a saved run. A script that does not compile, or a runtime state that is not
    /// well formed, is refused and changes nothing.
    pub fn load_snapshot(&mut self, envelope: SnapshotEnvelope) -> (r: Result<(), String>)
        requires
            old(self).wf(),
        ensures
            final(self).wf(),
            catalog_error(envelope.script.programs@) matches Some(error) ==> (r matches Err(message)
                && message@ == "snapshot script compile failed: "@ + compile_error_text(error))
                && *final(self) == *old(self),
            catalog_error(envelope.script.programs@) is None && !envelope.runtime.wf() ==> (
            r matches Err(message) && message@ == "snapshot runtime is not well formed"@)
                && *final(self) == *old(self),
            catalog_error(envelope.script.programs@) is None && envelope.runtime.wf() ==> {
                &&& r is Ok
                &&& final(self).current_preset() == envelope.preset
                &&& final(self).custom_script() == envelope.custom_script_loaded
                &&& final(self).script_programs() == envelope.script.programs@
                &&& final(self).runtime_state() == envelope.runtime
                &&& final(self).active_mind() == MindId(envelope.active_mind)
                &&& final(self).boss_vulnerable() == envelope.boss_vulnerable
                &&& final(self).action_lines() == envelope.actions@
                &&& final(self).trace_events() == Seq::<TraceEvent>::empty()
            },
    {
        let catalog = match envelope.script.compile() {
            Ok(catalog) => catalog,
            Err(error) => {
                let mut message = String::from_str("snapshot script compile failed: ");
                let label = compile_error_label(error);
                message.append(label.as_str());
                return Err(message);
            },
        };
        if !envelope.runtime.is_well_formed() {
            return Err(String::from_str("snapshot runtime is not well formed"));
        }
        self.preset = envelope.preset;
        self.custom_script_loaded = envelope.custom_script_loaded;
        self.script = envelope.script;
        self.catalog = catalog;
        self.snapshot = envelope.runtime;
        self.host = ShowcaseHost {
            actions: envelope.actions,
            active_mind: MindId(envelope.active_mind),
            boss_vulnerable: envelope.boss_vulnerable,
            answered: Ghost(Seq::empty()),
            asked: Ghost(Seq::empty()),
        };
        self.trace.clear();
        Ok(())
    }

    /// The record in the first slot holding the task `id`.
    fn snapshot_task(&self, id: TaskId) -> (task: Option<TaskRecord>)
        ensures
            task == task_from(self.snapshot.tasks@, id, 0),
    {
        let mut i: usize = 0;
        while i < SHOWCASE_MAX_TASKS
            invariant
                i <= SHOWCASE_MAX_TASKS,
                task_from(self.snapshot.tasks@, id, 0) == task_from(self.snapshot.tasks@, id, i as int),
            decreases SHOWCASE_MAX_TASKS - i,
        {
            if let Some(t) = self.snapshot.tasks[i] {
                if t.id == id {
                    return Some(t);
                }
            }
            i = i + 1;
        }
        None
    }

    /// The beat line (see `beat_text`).
    pub fn beat_line(&self) -> (line: String)
        ensures
            line@ == beat_text(
                self.current_preset(),
                self.runtime_state().tasks@,
                self.active_mind(),
                self.action_lines(),
            ),
    {
        let root = self.snapshot_task(TaskId(1));
        if let Some(root) = root {
            if root.mind_id != self.host.active_mind {
                if self.preset == ShowcasePreset::MultiMind {
                    let mut out = String::from_str("The ");
                    let name = mind_label(self.preset, root.mind_id);
                    out.append(name.as_str());
                    out.append(" is parked until the host activates it.");
                    return out;
                } else {
                    let mut out = String::from_str("Mind ");
                    push_decimal(&mut out, root.mind_id.0 as u64);
                    out.append(" is parked until mind ");
                    push_decimal(&mut out, root.mind_id.0 as u64);
                    out.append(" becomes active.");
                    return out;
                }
            }
        }
        let count = self.host.actions.len();
        if count > 0 {
            return self.host.actions[count - 1].label.clone();
        }
        match root {
            Some(root) => wait_beat_line(self.preset, root.wait),
            None => String::from_str("Showcase ready."),
        }
    }

    /// The tasks, ordered by id (see `shows_task`).
    pub fn collect_tasks(&self) -> (shown: Vec<ShowcaseTask>)
        ensures
            shown@.len() == sort_by_id(present(self.runtime_state().tasks@)).len(),
            forall|i: int|
                0 <= i < shown@.len() ==> shows_task(
                    sort_by_id(present(self.runtime_state().tasks@))[i],
                    self.current_preset(),
                    #[trigger] shown@[i],
                ),
    {
        let document = self.export_cli_runtime_snapshot();
        let normalized = normalize_snapshot(&document);
        let mut shown: Vec<ShowcaseTask> = Vec::new();
        let mut i: usize = 0;
        while i < normalized.tasks.len()
            invariant
                i <= normalized.tasks@.len(),
                normal_form_of(document, normalized),
                document.tasks@ == self.snapshot.tasks@,
                shown@.len() == i,
                forall|k: int|
                    0 <= k < i ==> shows_task(normalized.tasks@[k], self.preset, #[trigger] shown@[k]),
            decreases normalized.tasks@.len() - i,
        {
            shown.push(showcase_task(normalized.tasks[i], self.preset));
            i = i + 1;
        }
        shown
    }

    /// What a front end shows of this run.
    pub fn view(&self) -> (view: ShowcaseView)
        ensures
            view.preset@ == preset_text(self.current_preset()),
            view.title@ == title_text(self.current_preset()),
            view.subtitle@ == subtitle_text(self.current_preset()),
            view.clock == self.runtime_state().clock,
            view.beat@ == beat_text(
                self.current_preset(),
                self.runtime_state().tasks@,
                self.active_mind(),
                self.action_lines(),
            ),
            view.active_mind == self.active_mind().0,
            view.boss_vulnerable == self.boss_vulnerable(),
            view.tasks@.len() == sort_by_id(present(self.runtime_state().tasks@)).len(),
            forall|i: int|
                0 <= i < view.tasks@.len() ==> shows_task(
                    sort_by_id(present(self.runtime_state().tasks@))[i],
                    self.current_preset(),
                    #[trigger] view.tasks@[i],
                ),
            view.actions@ == self.action_lines(),
            view.trace@ == crate::debug::rendered(self.trace_events()),
            view.snapshot_hint@ == snapshot_hint_text(self.current_preset()),
    {
        ShowcaseView {
            preset: String::from_str(self.preset.as_str()),
            title: String::from_str(title_for_preset(self.preset)),
            subtitle: String::from_str(subtitle_for_preset(self.preset)),
            clock: self.snapshot.clock,
            beat: self.beat_line(),
            active_mind: self.host.active_mind.0,
            boss_vulnerable: self.host.boss_vulnerable,
            tasks: self.collect_tasks(),
            actions: copy_actions(&self.host.actions),
            trace: self.trace.render(),
            snapshot_hint: String::from_str(snapshot_hint_for_preset(self.preset)),
        }
    }
}

} // verus!
