use switchyard::showcase::{
    action_label, call_label, death_of_tick_script_document, multimind_script_document,
    program_label, shootemup_boss_script_document, signal_label, wait_reason_label,
    ShowcasePreset, ShowcaseState,
};
use switchyard::{
    ActionId, HostCall, HostCallId, MindId, OpDocument, ProgramCatalogDocument, ProgramDocument,
    ProgramId, SignalId, TaskId, WaitReason,
};

#[test]
fn showcase_view_exposes_waiting_signal_and_trace_after_first_tick() {
    let mut showcase = ShowcaseState::new();

    showcase.tick().expect("first tick");
    let view = showcase.view();

    assert_eq!(view.clock, 1);
    assert!(view.beat.contains("Camera crawls"));
    assert!(view.tasks.iter().any(
        |task| task.program_label == "main encounter" && task.wait.contains("player committed")
    ));
    assert!(view.trace.contains("task_waiting"));
}

#[test]
fn showcase_snapshot_restore_can_flip_race_outcome() {
    let mut showcase = ShowcaseState::new();

    showcase.tick().expect("intro tick");
    showcase.emit_signal(switchyard::SignalId(1)).expect("player committed");
    showcase.tick().expect("spawn children tick");
    showcase.emit_signal(switchyard::SignalId(2)).expect("scouts ready");
    showcase.tick().expect("scout clear tick");
    showcase.tick().expect("gate clear tick");
    showcase.set_boss_vulnerable(true);
    showcase.tick().expect("predicate and race tick");

    let snapshot = showcase.save_snapshot();

    showcase.emit_signal(switchyard::SignalId(4)).expect("collapse branch");
    showcase.tick().expect("collapse resolves");
    assert!(showcase.view().actions.iter().any(|action| action.label.contains("escape route")));

    showcase.load_snapshot(snapshot).expect("restore snapshot");
    showcase.emit_signal(switchyard::SignalId(3)).expect("boss spotted branch");
    showcase.tick().expect("boss intro resolves");

    let labels: Vec<String> =
        showcase.view().actions.into_iter().map(|action| action.label).collect();
    assert!(labels.iter().any(|label| label.contains("boss steps")));
    assert!(!labels.iter().any(|label| label.contains("escape route")));
}

#[test]
fn showcase_presets_parse_their_names_and_aliases() {
    assert_eq!(ShowcasePreset::parse("encounter"), Ok(ShowcasePreset::DeathOfTick));
    assert_eq!(ShowcasePreset::parse("death_of_tick"), Ok(ShowcasePreset::DeathOfTick));
    assert_eq!(ShowcasePreset::parse("shootemup_boss"), Ok(ShowcasePreset::ShootemupBoss));
    assert_eq!(ShowcasePreset::parse("mind_the_gap"), Ok(ShowcasePreset::MultiMind));
    assert_eq!(ShowcasePreset::parse("chess"), Err("unknown preset: chess".to_owned()));
    assert_eq!(ShowcasePreset::MultiMind.as_str(), "multimind");
}

#[test]
fn showcase_scripts_all_compile() {
    for document in [
        death_of_tick_script_document(),
        shootemup_boss_script_document(),
        multimind_script_document(),
    ] {
        let catalog = document.compile().expect("built-in script compiles");
        assert!(catalog.get(ProgramId(1)).is_some());
    }
}

#[test]
fn showcase_labels_name_actions_calls_and_waits() {
    assert_eq!(action_label(ActionId(4)), "The boss steps into the lantern light.");
    assert_eq!(action_label(ActionId(77)), "Action 77 emitted.");
    assert_eq!(
        call_label(HostCall::new(HostCallId(1), [90, 128, 16, 2])),
        "Spawn projectile pattern=90 x=128 y=16 speed=2."
    );
    assert_eq!(
        call_label(HostCall::new(HostCallId(9), [-1, 0, 7, -30])),
        "Host call 9 args=[-1, 0, 7, -30]."
    );
    assert_eq!(program_label(ShowcasePreset::ShootemupBoss, ProgramId(1)), "boss phase");
    assert_eq!(program_label(ShowcasePreset::DeathOfTick, ProgramId(99)), "program 99");
    assert_eq!(signal_label(ShowcasePreset::MultiMind, SignalId(4)), "final blackout");
    assert_eq!(
        wait_reason_label(
            WaitReason::SignalOrTicks { signal: SignalId(2), until_tick: 5 },
            ShowcasePreset::ShootemupBoss
        ),
        "signal_or_ticks: wing drones cleared or clock 5"
    );
    assert_eq!(
        wait_reason_label(WaitReason::Race { left: TaskId(3), right: TaskId(4) }, ShowcasePreset::DeathOfTick),
        "race between task 3 and task 4"
    );
}

#[test]
fn showcase_refuses_scripts_without_root_or_that_do_not_compile() {
    let mut showcase = ShowcaseState::new();
    let no_root = ProgramCatalogDocument {
        programs: vec![ProgramDocument { id: ProgramId(7), ops: vec![OpDocument::Succeed] }],
    };
    assert_eq!(
        showcase.load_script(no_root),
        Err("script compile failed: root program 1 is missing".to_owned())
    );
    assert_eq!(
        showcase.load_script(ProgramCatalogDocument { programs: vec![] }),
        Err("script compile failed: catalog is empty".to_owned())
    );
    let custom = ProgramCatalogDocument {
        programs: vec![ProgramDocument {
            id: ProgramId(1),
            ops: vec![OpDocument::Action { action: ActionId(3) }, OpDocument::Succeed],
        }],
    };
    showcase.load_script(custom).expect("custom script");
    showcase.tick().expect("tick");
    assert_eq!(showcase.view().beat, "A scout throws the all-clear from the gantry.");
}

#[test]
fn showcase_multimind_beat_reports_parked_mind() {
    let mut showcase = ShowcaseState::new();
    showcase.select_preset("multimind").expect("preset");
    showcase.tick().expect("first tick");
    showcase.emit_signal(SignalId(1)).expect("cue");
    showcase.tick().expect("hand off");
    assert_eq!(
        showcase.view().beat,
        "The gameplay mind is parked until the host activates it."
    );
    showcase.set_active_mind(MindId(2));
    showcase.tick().expect("gameplay beat");
    assert_eq!(
        showcase.view().beat,
        "The gameplay mind takes control and starts the playable beat."
    );
    assert_eq!(showcase.select_preset("nope"), Err("unknown preset: nope".to_owned()));
}

#[test]
fn showcase_refuses_malformed_runtime_snapshot() {
    let mut showcase = ShowcaseState::new();
    let mut envelope = showcase.save_snapshot();
    envelope.runtime.next_task_id = 0;
    assert_eq!(
        showcase.load_snapshot(envelope),
        Err("snapshot runtime is not well formed".to_owned())
    );
    assert_eq!(showcase.export_cli_runtime_snapshot().next_task_id, 1);
}
