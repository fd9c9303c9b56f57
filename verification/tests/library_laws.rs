use switchyard::debug::{push_decimal, render_event};
use switchyard::{
    ActionId, BuildError, CompileError, Host, HostCall, HostCallId, MindId, Op, OpDocument,
    Outcome, OwnedProgram, PredicateId, Program, ProgramBuilder, ProgramCatalog,
    ProgramCatalogDocument, ProgramDocument, ProgramId, Runtime, RuntimeError, SignalId,
    StepReport, TaskId, TraceEvent, TraceLog, TraceSink, WaitReason,
};

#[derive(Default)]
struct QuietHost {
    actions: Vec<(u32, u16)>,
}

impl Host for QuietHost {
    fn on_action(&mut self, task: TaskId, action: ActionId) {
        self.actions.push((task.0, action.0));
    }

    fn on_call(&mut self, _task: switchyard::TaskId, _call: switchyard::HostCall) {}

    fn is_mind_active(&mut self, _mind: switchyard::MindId) -> bool {
        true
    }

    fn query_ready(&mut self, _predicate: switchyard::PredicateId) -> bool {
        false
    }
}

#[test]
fn spawned_task_reads_back_as_fresh_record() {
    let main = [Op::WaitTicks(1), Op::Succeed];
    let programs = [Program::new(ProgramId(4), &main)];
    let mut runtime: Runtime<2, 1> = Runtime::new(ProgramCatalog::new(&programs));

    let first = runtime.spawn(ProgramId(4)).expect("first spawn");
    let second = runtime.spawn(ProgramId(4)).expect("second spawn");

    assert_eq!(first, TaskId(1));
    assert_eq!(second, TaskId(2));
    let record = runtime.task(second).expect("read back");
    assert_eq!(record.id, second);
    assert_eq!(record.program_id, ProgramId(4));
    assert_eq!(record.mind_id, MindId(1));
    assert_eq!(record.ip, 0);
    assert_eq!(record.parent, None);
    assert_eq!(record.scope_root, second);
    assert_eq!(record.outcome, Outcome::Running);
    assert_eq!(record.wait, WaitReason::Ready);
}

#[test]
fn spawn_reports_missing_program_and_full_capacity() {
    let main = [Op::Succeed];
    let programs = [Program::new(ProgramId(1), &main)];
    let mut runtime: Runtime<1, 1> = Runtime::new(ProgramCatalog::new(&programs));

    assert_eq!(runtime.spawn(ProgramId(9)), Err(RuntimeError::ProgramNotFound(ProgramId(9))));
    assert_eq!(runtime.spawn(ProgramId(1)), Ok(TaskId(1)));
    assert_eq!(runtime.spawn(ProgramId(1)), Err(RuntimeError::CapacityExceeded));
    assert_eq!(runtime.snapshot().next_task_id, 1);
}

#[test]
fn emit_signal_reports_full_queue_and_leaves_it_unchanged() {
    let main = [Op::Succeed];
    let programs = [Program::new(ProgramId(1), &main)];
    let mut runtime: Runtime<1, 2> = Runtime::new(ProgramCatalog::new(&programs));

    runtime.emit_signal(SignalId(1)).expect("first");
    runtime.emit_signal(SignalId(2)).expect("second");
    let before = runtime.snapshot();
    assert_eq!(runtime.emit_signal(SignalId(3)), Err(RuntimeError::SignalQueueFull));
    assert_eq!(runtime.snapshot(), before);
    assert_eq!(before.pending_signals, [Some(SignalId(1)), Some(SignalId(2))]);
}

#[test]
fn tick_advances_clock_by_one_and_consumes_signals() {
    let main = [Op::WaitSignal(SignalId(5)), Op::Succeed];
    let programs = [Program::new(ProgramId(1), &main)];
    let mut runtime: Runtime<2, 2> = Runtime::new(ProgramCatalog::new(&programs));
    let mut host = QuietHost::default();

    runtime.emit_signal(SignalId(9)).expect("unrelated signal");
    let report = runtime.tick(&mut host).expect("tick");

    assert_eq!(report, StepReport { clock: 1, actions_emitted: 0, progress_made: false });
    assert_eq!(runtime.clock(), 1);
    assert_eq!(runtime.snapshot().pending_signals, [None, None]);
}

#[test]
fn tick_without_progress_changes_no_task() {
    let main = [Op::WaitSignal(SignalId(5)), Op::Succeed];
    let programs = [Program::new(ProgramId(1), &main)];
    let mut runtime: Runtime<2, 2> = Runtime::new(ProgramCatalog::new(&programs));
    let mut host = QuietHost::default();
    runtime.spawn(ProgramId(1)).expect("spawn");
    runtime.tick(&mut host).expect("park");
    let tasks = runtime.tasks();

    let report = runtime.tick(&mut host).expect("idle tick");

    assert!(!report.progress_made);
    assert_eq!(runtime.tasks(), tasks);
}

#[test]
fn tick_leaves_no_queued_signal_waiter_asleep() {
    let waiter = [Op::WaitSignal(SignalId(5)), Op::Action(ActionId(1)), Op::WaitSignal(SignalId(5))];
    let programs = [Program::new(ProgramId(1), &waiter)];
    let mut runtime: Runtime<2, 2> = Runtime::new(ProgramCatalog::new(&programs));
    let mut host = QuietHost::default();
    let task = runtime.spawn(ProgramId(1)).expect("spawn");
    runtime.tick(&mut host).expect("park");

    runtime.emit_signal(SignalId(5)).expect("queue");
    runtime.tick(&mut host).expect("wake");

    // The signal stays queued for the whole tick, so the second wait on it is over too:
    // the tick runs the task to its end.
    assert_eq!(host.actions, vec![(task.0, 1)]);
    let record = runtime.task(task).expect("task");
    assert_eq!(record.outcome, Outcome::Succeeded);
    assert_eq!(record.ip, 3);
}

#[test]
fn finished_tasks_keep_their_records_across_ticks() {
    let main = [Op::Fail];
    let programs = [Program::new(ProgramId(1), &main)];
    let mut runtime: Runtime<2, 1> = Runtime::new(ProgramCatalog::new(&programs));
    let mut host = QuietHost::default();
    let task = runtime.spawn(ProgramId(1)).expect("spawn");
    runtime.tick(&mut host).expect("fail");
    let finished = runtime.task(task).expect("task");
    assert_eq!(finished.outcome, Outcome::Failed);

    runtime.tick(&mut host).expect("again");
    runtime.tick(&mut host).expect("and again");

    assert_eq!(runtime.task(task), Some(finished));
}

#[test]
fn snapshot_restore_gives_back_the_same_state() {
    let main = [Op::WaitTicks(3), Op::Succeed];
    let programs = [Program::new(ProgramId(1), &main)];
    let mut runtime: Runtime<2, 1> = Runtime::new(ProgramCatalog::new(&programs));
    let mut host = QuietHost::default();
    runtime.spawn(ProgramId(1)).expect("spawn");
    runtime.tick(&mut host).expect("tick");
    let snapshot = runtime.snapshot();

    let restored: Runtime<2, 1> =
        Runtime::from_snapshot(ProgramCatalog::new(&programs), snapshot);

    assert_eq!(restored.snapshot(), snapshot);
    assert_eq!(restored.clock(), 1);
}

#[test]
fn catalog_compile_reports_empty_catalog_and_empty_program() {
    assert_eq!(
        ProgramCatalogDocument { programs: vec![] }.compile().map(|_| ()),
        Err(CompileError::EmptyCatalog)
    );
    let document = ProgramCatalogDocument {
        programs: vec![
            ProgramDocument { id: ProgramId(1), ops: vec![OpDocument::Succeed] },
            ProgramDocument { id: ProgramId(2), ops: vec![] },
        ],
    };
    assert_eq!(
        document.compile().map(|_| ()),
        Err(CompileError::EmptyProgram { program_id: ProgramId(2) })
    );
}

#[test]
fn catalog_compile_lowers_macro_ops_in_place() {
    let document = ProgramCatalogDocument {
        programs: vec![
            ProgramDocument {
                id: ProgramId(1),
                ops: vec![
                    OpDocument::RepeatCount { count: 2, program: ProgramId(2) },
                    OpDocument::SyncChildren { left: ProgramId(2), right: ProgramId(2) },
                    OpDocument::RaceChildren { left: ProgramId(2), right: ProgramId(2) },
                    OpDocument::Call { call: HostCallId(3), arg0: -1, arg1: 0, arg2: 1, arg3: 2 },
                ],
            },
            ProgramDocument { id: ProgramId(2), ops: vec![OpDocument::Succeed] },
        ],
    };

    let catalog = document.compile().expect("compile");
    let program = catalog.get(ProgramId(1)).expect("program 1");

    assert_eq!(
        program.ops(),
        &[
            Op::Spawn(ProgramId(2)),
            Op::JoinChildren,
            Op::Spawn(ProgramId(2)),
            Op::JoinChildren,
            Op::Spawn(ProgramId(2)),
            Op::Spawn(ProgramId(2)),
            Op::JoinChildren,
            Op::Race2(ProgramId(2), ProgramId(2)),
            Op::Call(HostCall::new(HostCallId(3), [-1, 0, 1, 2])),
        ]
    );
    assert!(catalog.get(ProgramId(7)).is_none());
}

#[test]
fn builder_keeps_program_when_capacity_is_reached() {
    let mut builder = ProgramBuilder::<1>::new(ProgramId(1));
    builder.wait_predicate(PredicateId(2)).expect("fits");
    assert_eq!(builder.spawn(ProgramId(2)).map(|_| ()), Err(BuildError::CapacityExceeded));
    assert_eq!(builder.program().ops, &[Op::WaitPredicate(PredicateId(2))]);
}

#[test]
fn owned_program_appends_in_order() {
    let mut program = OwnedProgram::new(ProgramId(3));
    program.action(ActionId(1)).wait_signal(SignalId(2)).change_mind(MindId(4));
    assert_eq!(
        program.ops(),
        &[Op::Action(ActionId(1)), Op::WaitSignal(SignalId(2)), Op::ChangeMind(MindId(4))]
    );
}

#[test]
fn decimal_rendering_has_no_leading_zeros() {
    let mut out = String::from("n=");
    push_decimal(&mut out, 0);
    out.push(' ');
    push_decimal(&mut out, 10);
    out.push(' ');
    push_decimal(&mut out, u64::MAX);
    assert_eq!(out, "n=0 10 18446744073709551615");
}

#[test]
fn trace_lines_name_every_field() {
    assert_eq!(render_event(TraceEvent::TickStarted { clock: 12 }), "tick_started clock=12");
    assert_eq!(
        render_event(TraceEvent::TickCompleted {
            report: StepReport { clock: 3, actions_emitted: 2, progress_made: true }
        }),
        "tick_completed clock=3 actions=2 progress=true"
    );
    assert_eq!(
        render_event(TraceEvent::TaskSpawned {
            task: TaskId(2),
            program_id: ProgramId(5),
            parent: Some(TaskId(1)),
            scope_root: TaskId(1)
        }),
        "task_spawned task=2 program=5 parent=1 scope_root=1"
    );
    assert_eq!(
        render_event(TraceEvent::TaskSpawned {
            task: TaskId(1),
            program_id: ProgramId(5),
            parent: None,
            scope_root: TaskId(1)
        }),
        "task_spawned task=1 program=5 parent=root scope_root=1"
    );
    assert_eq!(
        render_event(TraceEvent::TaskWaiting {
            task: TaskId(3),
            reason: WaitReason::RaceOrTicks { left: TaskId(4), right: TaskId(5), until_tick: 9 }
        }),
        "task_waiting task=3 reason=race_or_ticks:4:5:9"
    );
    assert_eq!(
        render_event(TraceEvent::TaskWoken { task: TaskId(3), reason: WaitReason::ChildrenAny }),
        "task_woken task=3 reason=children_any"
    );
    assert_eq!(
        render_event(TraceEvent::CallEmitted {
            task: TaskId(1),
            call: HostCall::new(HostCallId(8), [0, 0, 0, 0])
        }),
        "call_emitted task=1 call=8"
    );
    assert_eq!(
        render_event(TraceEvent::TaskMindChanged { task: TaskId(1), from: MindId(1), to: MindId(2) }),
        "task_mind_changed task=1 from=1 to=2"
    );
    assert_eq!(
        render_event(TraceEvent::TaskFinished { task: TaskId(1), outcome: Outcome::Cancelled }),
        "task_finished task=1 outcome=Cancelled"
    );
}

#[test]
fn trace_log_renders_one_line_per_event() {
    let mut log = TraceLog::default();
    log.on_event(TraceEvent::SignalQueued { signal: SignalId(1) });
    log.on_event(TraceEvent::ActionEmitted { task: TaskId(2), action: ActionId(3) });
    log.on_event(TraceEvent::TaskWaiting {
        task: TaskId(2),
        reason: WaitReason::Ticks { until_tick: 4 },
    });

    assert_eq!(log.events().len(), 3);
    assert_eq!(
        log.render(),
        "signal_queued signal=1\naction_emitted task=2 action=3\ntask_waiting task=2 reason=ticks:4"
    );
}

#[test]
fn failing_task_cancels_its_running_subtree_and_spares_other_tasks() {
    let root = [Op::Spawn(ProgramId(2)), Op::WaitTicks(2), Op::Fail];
    let child = [Op::Spawn(ProgramId(3)), Op::WaitTicks(100), Op::Succeed];
    let grandchild = [Op::WaitTicks(100), Op::Succeed];
    let other = [Op::WaitTicks(100), Op::Succeed];
    let programs = [
        Program::new(ProgramId(1), &root),
        Program::new(ProgramId(2), &child),
        Program::new(ProgramId(3), &grandchild),
        Program::new(ProgramId(4), &other),
    ];
    let mut runtime: Runtime<4, 1> = Runtime::new(ProgramCatalog::new(&programs));
    let mut host = QuietHost::default();

    assert_eq!(runtime.spawn(ProgramId(1)), Ok(TaskId(1)));
    assert_eq!(runtime.spawn(ProgramId(4)), Ok(TaskId(2)));
    for _ in 0..3 {
        runtime.tick(&mut host).expect("tick");
    }

    assert_eq!(runtime.task(TaskId(1)).unwrap().outcome, Outcome::Failed);
    assert_eq!(runtime.task(TaskId(3)).unwrap().parent, Some(TaskId(1)));
    assert_eq!(runtime.task(TaskId(3)).unwrap().outcome, Outcome::Cancelled);
    assert_eq!(runtime.task(TaskId(4)).unwrap().parent, Some(TaskId(3)));
    assert_eq!(runtime.task(TaskId(4)).unwrap().outcome, Outcome::Cancelled);
    assert_eq!(runtime.task(TaskId(4)).unwrap().wait, WaitReason::Ready);
    assert_eq!(runtime.task(TaskId(2)).unwrap().outcome, Outcome::Running);
}

#[test]
fn tick_report_counts_every_action_step() {
    let main = [
        Op::Action(ActionId(1)),
        Op::Call(HostCall { id: HostCallId(1), args: [0, 0, 0, 0] }),
        Op::Action(ActionId(2)),
        Op::WaitTicks(1),
        Op::Action(ActionId(3)),
        Op::Succeed,
    ];
    let programs = [Program::new(ProgramId(1), &main)];
    let mut runtime: Runtime<2, 1> = Runtime::new(ProgramCatalog::new(&programs));
    let mut host = QuietHost::default();
    runtime.spawn(ProgramId(1)).expect("spawn");
    runtime.spawn(ProgramId(1)).expect("spawn");

    let first = runtime.tick(&mut host).expect("first tick");
    assert_eq!(first, StepReport { clock: 1, actions_emitted: 4, progress_made: true });
    let second = runtime.tick(&mut host).expect("second tick");
    assert_eq!(second, StepReport { clock: 2, actions_emitted: 2, progress_made: true });
    let third = runtime.tick(&mut host).expect("third tick");
    assert_eq!(third, StepReport { clock: 3, actions_emitted: 0, progress_made: false });
    assert_eq!(host.actions, vec![(1, 1), (1, 2), (2, 1), (2, 2), (1, 3), (2, 3)]);
}

/// A host whose answers follow a fixed script of questions answered so far.
#[derive(Default)]
struct ScriptedHost {
    asked: u32,
    log: Vec<(u32, u16)>,
}

impl Host for ScriptedHost {
    fn on_action(&mut self, task: TaskId, action: ActionId) {
        self.log.push((task.0, action.0));
    }

    fn is_mind_active(&mut self, _mind: MindId) -> bool {
        self.asked += 1;
        true
    }

    fn query_ready(&mut self, _predicate: PredicateId) -> bool {
        self.asked += 1;
        self.asked % 3 == 0
    }

    fn on_call(&mut self, _task: switchyard::TaskId, _call: switchyard::HostCall) {}
}

#[test]
fn ticks_from_the_same_state_with_the_same_answers_agree() {
    let main = [
        Op::BranchPredicate(PredicateId(1), ProgramId(2), ProgramId(3)),
        Op::WaitPredicate(PredicateId(2)),
        Op::Race2(ProgramId(2), ProgramId(3)),
        Op::Action(ActionId(9)),
        Op::Succeed,
    ];
    let left = [Op::Action(ActionId(1)), Op::WaitTicks(1), Op::Succeed];
    let right = [Op::Action(ActionId(2)), Op::WaitTicks(2), Op::Fail];
    let programs = [
        Program::new(ProgramId(1), &main),
        Program::new(ProgramId(2), &left),
        Program::new(ProgramId(3), &right),
    ];
    let mut first: Runtime<8, 2> = Runtime::new(ProgramCatalog::new(&programs));
    first.spawn(ProgramId(1)).expect("spawn");
    first.spawn(ProgramId(1)).expect("spawn");
    let mut second: Runtime<8, 2> = Runtime::from_snapshot(ProgramCatalog::new(&programs), first.snapshot());
    let mut first_host = ScriptedHost::default();
    let mut second_host = ScriptedHost::default();

    for _ in 0..6 {
        let a = first.tick(&mut first_host);
        let b = second.tick(&mut second_host);
        assert_eq!(a, b);
        assert_eq!(first.snapshot(), second.snapshot());
    }
    assert_eq!(first_host.asked, second_host.asked);
    assert_eq!(first_host.log, second_host.log);
    assert!(first_host.asked > 0);
}

fn parents_of_running_tasks_run<const N: usize, const S: usize>(runtime: &Runtime<N, S>) -> bool {
    runtime.tasks().iter().flatten().all(|task| {
        task.outcome != Outcome::Running
            || match task.parent {
                Some(parent) => match runtime.task(parent) {
                    Some(record) => record.outcome == Outcome::Running,
                    None => true,
                },
                None => true,
            }
    })
}

#[test]
fn running_tasks_have_running_parents_after_every_call() {
    let root = [Op::Spawn(ProgramId(2)), Op::Race2(ProgramId(3), ProgramId(2)), Op::WaitTicks(1), Op::Fail];
    let child = [Op::Spawn(ProgramId(3)), Op::WaitTicks(100), Op::Succeed];
    let quick = [Op::WaitTicks(1), Op::Succeed];
    let programs = [
        Program::new(ProgramId(1), &root),
        Program::new(ProgramId(2), &child),
        Program::new(ProgramId(3), &quick),
    ];
    let mut runtime: Runtime<8, 2> = Runtime::new(ProgramCatalog::new(&programs));
    let mut host = QuietHost::default();

    assert!(parents_of_running_tasks_run(&runtime));
    assert_eq!(runtime.spawn(ProgramId(1)), Ok(TaskId(1)));
    assert!(parents_of_running_tasks_run(&runtime));
    for _ in 0..6 {
        runtime.tick(&mut host).expect("tick");
        assert!(parents_of_running_tasks_run(&runtime));
        runtime.emit_signal(SignalId(1)).expect("signal");
        assert!(parents_of_running_tasks_run(&runtime));
    }
    assert_eq!(runtime.task(TaskId(1)).unwrap().outcome, Outcome::Failed);
    assert_eq!(runtime.task(TaskId(2)).unwrap().outcome, Outcome::Cancelled);
}

#[test]
fn clock_counts_ticks_and_nothing_else() {
    let main = [Op::WaitSignal(SignalId(3)), Op::Succeed];
    let programs = [Program::new(ProgramId(1), &main)];
    let mut runtime: Runtime<2, 2> = Runtime::new(ProgramCatalog::new(&programs));
    let mut host = QuietHost::default();

    assert_eq!(runtime.clock(), 0);
    runtime.spawn(ProgramId(1)).expect("spawn");
    assert_eq!(runtime.clock(), 0);
    runtime.tick(&mut host).expect("tick");
    runtime.emit_signal(SignalId(3)).expect("signal");
    assert_eq!(runtime.clock(), 1);
    runtime.tick(&mut host).expect("tick");
    runtime.tick(&mut host).expect("tick");
    assert_eq!(runtime.clock(), 3);
    assert_eq!(runtime.spawn(ProgramId(9)), Err(RuntimeError::ProgramNotFound(ProgramId(9))));
    assert_eq!(runtime.clock(), 3);
}

#[test]
fn trace_log_holds_events_since_last_clear() {
    let mut log = TraceLog::new();
    log.on_event(TraceEvent::SignalQueued { signal: SignalId(1) });
    log.clear();
    log.on_event(TraceEvent::SignalQueued { signal: SignalId(2) });
    log.on_event(TraceEvent::TickStarted { clock: 5 });

    assert_eq!(
        log.events(),
        &[TraceEvent::SignalQueued { signal: SignalId(2) }, TraceEvent::TickStarted { clock: 5 }][..]
    );
}
