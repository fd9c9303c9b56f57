use switchyard::bundle::{bundle_order, text_less, total_count};
use switchyard::inspect::{
    build_catalog_summary, build_snapshot_summary, check_manifest_version,
    check_snapshot_entry_id, compile_error_label, is_blank, normalize_catalog_document,
    normalize_snapshot, op_ids, op_kind, op_kind_name, op_kind_number, outcome_kind,
    outcome_name, root_task_ids, summarize_tasks, validate_snapshot_against_catalog, wait_kind,
    wait_kind_name,
    IdField, ManifestError, SnapshotDocument, SnapshotError, OP_KIND_COUNT,
};
use switchyard::{
    ActionId, CompileError, HostCallId, MindId, OpDocument, Outcome, PredicateId,
    ProgramCatalogDocument, ProgramDocument, ProgramId, SignalId, TaskId, TaskRecord, WaitReason,
};

fn task(id: u32, program: u16, parent: Option<u32>, scope_root: u32, wait: WaitReason) -> TaskRecord {
    TaskRecord {
        id: TaskId(id),
        program_id: ProgramId(program),
        mind_id: MindId(1),
        ip: 0,
        parent: parent.map(TaskId),
        scope_root: TaskId(scope_root),
        outcome: Outcome::Running,
        wait,
    }
}

fn two_program_catalog() -> ProgramCatalogDocument {
    ProgramCatalogDocument {
        programs: vec![
            ProgramDocument {
                id: ProgramId(1),
                ops: vec![
                    OpDocument::WaitSignal { signal: SignalId(7) },
                    OpDocument::Spawn { program: ProgramId(2) },
                    OpDocument::JoinChildren,
                    OpDocument::Succeed,
                ],
            },
            ProgramDocument {
                id: ProgramId(2),
                ops: vec![OpDocument::Action { action: ActionId(3) }, OpDocument::Succeed],
            },
        ],
    }
}

#[test]
fn normalize_snapshot_drops_empty_entries_and_orders_tasks_stably() {
    let first_three = task(3, 1, None, 3, WaitReason::Ready);
    let mut second_three = task(3, 2, None, 3, WaitReason::Ready);
    second_three.ip = 9;
    let doc = SnapshotDocument {
        clock: 4,
        next_task_id: 5,
        tasks: vec![
            Some(first_three),
            None,
            Some(task(1, 1, None, 1, WaitReason::ChildrenAll)),
            Some(second_three),
            None,
        ],
        pending_signals: vec![None, Some(SignalId(8)), None, Some(SignalId(2))],
    };

    let normalized = normalize_snapshot(&doc);

    assert_eq!(normalized.clock, 4);
    assert_eq!(normalized.next_task_id, 5);
    assert_eq!(normalized.tasks.len(), 3);
    assert_eq!(normalized.tasks[0].id, TaskId(1));
    assert_eq!(normalized.tasks[1], first_three);
    assert_eq!(normalized.tasks[2], second_three);
    assert_eq!(normalized.pending_signals, vec![SignalId(8), SignalId(2)]);
}

#[test]
fn validate_snapshot_accepts_closed_snapshot() {
    let catalog = two_program_catalog().compile().expect("compile");
    let doc = SnapshotDocument {
        clock: 1,
        next_task_id: 3,
        tasks: vec![
            Some(task(2, 2, Some(1), 1, WaitReason::Ready)),
            Some(task(1, 1, None, 1, WaitReason::Timeout { child: TaskId(2), until_tick: 9 })),
        ],
        pending_signals: vec![],
    };
    let normalized = normalize_snapshot(&doc);
    assert_eq!(validate_snapshot_against_catalog(&catalog, &normalized), Ok(()));
}

#[test]
fn validate_snapshot_reports_each_error_kind() {
    let catalog = two_program_catalog().compile().expect("compile");
    let check = |tasks: Vec<Option<TaskRecord>>| {
        let doc = SnapshotDocument { clock: 0, next_task_id: 9, tasks, pending_signals: vec![] };
        validate_snapshot_against_catalog(&catalog, &normalize_snapshot(&doc))
    };

    assert_eq!(
        check(vec![Some(task(1, 5, None, 1, WaitReason::Ready))]),
        Err(SnapshotError::UnknownProgram { task: TaskId(1), program: ProgramId(5) })
    );
    assert_eq!(
        check(vec![
            Some(task(1, 1, None, 1, WaitReason::Ready)),
            Some(task(1, 2, None, 1, WaitReason::Ready)),
        ]),
        Err(SnapshotError::DuplicateTask(TaskId(1)))
    );
    assert_eq!(
        check(vec![Some(task(2, 1, Some(1), 2, WaitReason::Ready))]),
        Err(SnapshotError::MissingParent { task: TaskId(2), parent: TaskId(1) })
    );
    assert_eq!(
        check(vec![Some(task(2, 1, None, 7, WaitReason::Ready))]),
        Err(SnapshotError::MissingScopeRoot { task: TaskId(2), scope_root: TaskId(7) })
    );
    assert_eq!(
        check(vec![Some(task(
            1,
            1,
            None,
            1,
            WaitReason::Race { left: TaskId(1), right: TaskId(4) }
        ))]),
        Err(SnapshotError::MissingWaitTask { task: TaskId(1), target: TaskId(4) })
    );
    // An unknown program is found before a missing parent of an earlier task.
    assert_eq!(
        check(vec![
            Some(task(2, 1, Some(1), 2, WaitReason::Ready)),
            Some(task(3, 9, None, 3, WaitReason::Ready)),
        ]),
        Err(SnapshotError::UnknownProgram { task: TaskId(3), program: ProgramId(9) })
    );
}

#[test]
fn snapshot_error_messages_name_the_tasks() {
    assert_eq!(
        SnapshotError::UnknownProgram { task: TaskId(12), program: ProgramId(40) }.message(),
        "task 12 references unknown program 40"
    );
    assert_eq!(SnapshotError::DuplicateTask(TaskId(3)).message(), "duplicate task id 3");
    assert_eq!(
        SnapshotError::MissingParent { task: TaskId(2), parent: TaskId(1) }.message(),
        "task 2 references missing parent task 1"
    );
    assert_eq!(
        SnapshotError::MissingScopeRoot { task: TaskId(2), scope_root: TaskId(100) }.message(),
        "task 2 references missing scope root task 100"
    );
    assert_eq!(
        SnapshotError::MissingWaitTask { task: TaskId(5), target: TaskId(6) }.message(),
        "task 5 wait references missing task 6"
    );
}

#[test]
fn compile_error_labels_match_cli_messages() {
    assert_eq!(compile_error_label(CompileError::EmptyCatalog), "catalog is empty");
    assert_eq!(
        compile_error_label(CompileError::EmptyProgram { program_id: ProgramId(4) }),
        "program 4 has no ops"
    );
    assert_eq!(
        compile_error_label(CompileError::DuplicateProgramId(ProgramId(65535))),
        "duplicate program id 65535"
    );
    assert_eq!(
        compile_error_label(CompileError::UnknownProgramReference {
            owner: ProgramId(1),
            target: ProgramId(20)
        }),
        "program 1 references missing program 20"
    );
}

#[test]
fn catalog_summary_collects_ids_and_histogram() {
    let document = ProgramCatalogDocument {
        programs: vec![
            ProgramDocument {
                id: ProgramId(3),
                ops: vec![
                    OpDocument::Call { call: HostCallId(9), arg0: 1, arg1: 2, arg2: 3, arg3: 4 },
                    OpDocument::ChangeMind { mind: MindId(2) },
                    OpDocument::WaitSignal { signal: SignalId(7) },
                    OpDocument::WaitSignalOrTicks { signal: SignalId(2), ticks: 3 },
                    OpDocument::BranchPredicate {
                        predicate: PredicateId(5),
                        if_true: ProgramId(1),
                        if_false: ProgramId(1),
                    },
                    OpDocument::Race2 { left: ProgramId(4), right: ProgramId(1) },
                    OpDocument::WaitSignal { signal: SignalId(7) },
                    OpDocument::Succeed,
                ],
            },
            ProgramDocument { id: ProgramId(1), ops: vec![OpDocument::Succeed] },
        ],
    };

    let summary = build_catalog_summary(&document);

    assert_eq!(summary.program_count, 2);
    assert_eq!(summary.program_ids, vec![3, 1]);
    assert_eq!(summary.referenced_program_ids, vec![1, 4]);
    assert_eq!(summary.signal_ids, vec![2, 7]);
    assert_eq!(summary.predicate_ids, vec![5]);
    assert_eq!(summary.mind_ids, vec![2]);
    assert_eq!(summary.host_call_ids, vec![9]);
    assert_eq!(summary.op_counts.len(), OP_KIND_COUNT);
    let named: Vec<(&str, usize)> = summary
        .op_counts
        .iter()
        .enumerate()
        .filter(|(_, count)| **count > 0)
        .map(|(kind, count)| (op_kind_name(kind), *count))
        .collect();
    assert_eq!(
        named,
        vec![
            ("call", 1),
            ("change_mind", 1),
            ("wait_signal_or_ticks", 1),
            ("wait_signal", 2),
            ("branch_predicate", 1),
            ("race2", 1),
            ("succeed", 2),
        ]
    );
}

#[test]
fn snapshot_summary_counts_present_tasks() {
    let mut finished = task(4, 2, Some(1), 1, WaitReason::Ready);
    finished.outcome = Outcome::Succeeded;
    finished.mind_id = MindId(3);
    let doc = SnapshotDocument {
        clock: 11,
        next_task_id: 4,
        tasks: vec![
            Some(task(1, 1, None, 1, WaitReason::ChildrenAll)),
            None,
            Some(finished),
            Some(task(2, 1, Some(1), 1, WaitReason::Signal(SignalId(7)))),
        ],
        pending_signals: vec![Some(SignalId(7)), None],
    };

    let summary = build_snapshot_summary(&doc);

    assert_eq!(summary.clock, 11);
    assert_eq!(summary.next_task_id, 4);
    assert_eq!(summary.tasks.task_count, 3);
    assert_eq!(summary.tasks.root_task_count, 1);
    assert_eq!(summary.tasks.program_ids, vec![1, 2]);
    assert_eq!(summary.tasks.mind_ids, vec![1, 3]);
    assert_eq!(summary.pending_signals, vec![7]);
    assert_eq!(summary.tasks.wait_counts[0], 1);
    assert_eq!(summary.tasks.wait_counts[2], 1);
    assert_eq!(summary.tasks.wait_counts[8], 1);
    assert_eq!(summary.tasks.outcome_counts, vec![2, 1, 0, 0]);
    assert_eq!(wait_kind_name(8), "children_all");
    assert_eq!(outcome_name(1), "succeeded");
}

#[test]
fn task_overview_of_normalized_tasks_counts_roots() {
    let tasks = vec![
        task(1, 1, None, 1, WaitReason::Ready),
        task(2, 2, Some(1), 1, WaitReason::Ready),
        task(3, 1, None, 3, WaitReason::Ready),
    ];
    let overview = summarize_tasks(&tasks);
    assert_eq!(overview.task_count, 3);
    assert_eq!(overview.root_task_count, 2);
    assert_eq!(overview.program_ids, vec![1, 2]);
}

#[test]
fn kind_labels_name_each_variant() {
    assert_eq!(op_kind(&OpDocument::RepeatCount { count: 2, program: ProgramId(1) }), "repeat_count");
    assert_eq!(op_kind(&OpDocument::JoinAnyChildren), "join_any_children");
    assert_eq!(op_kind_number(&OpDocument::Fail), 23);
    assert_eq!(op_kind_name(op_kind_number(&OpDocument::Fail)), "fail");
    assert_eq!(wait_kind(WaitReason::Timeout { child: TaskId(2), until_tick: 3 }), "timeout");
    assert_eq!(outcome_kind(Outcome::Cancelled), "cancelled");
    assert_eq!(
        op_ids(&OpDocument::BranchPredicate {
            predicate: PredicateId(4),
            if_true: ProgramId(5),
            if_false: ProgramId(6)
        }, IdField::Program),
        vec![5, 6]
    );
}

#[test]
fn normalize_catalog_document_orders_programs_by_id() {
    let mut document = two_program_catalog();
    document.programs.reverse();
    document.programs.push(ProgramDocument { id: ProgramId(1), ops: vec![OpDocument::Fail] });

    let normalized = normalize_catalog_document(document);

    let ids: Vec<u16> = normalized.programs.iter().map(|program| program.id.0).collect();
    assert_eq!(ids, vec![1, 1, 2]);
    assert_eq!(normalized.programs[0].ops.len(), 4);
    assert_eq!(normalized.programs[1].ops, vec![OpDocument::Fail]);
}

#[test]
fn manifest_checks_reject_version_blank_and_duplicate_ids() {
    assert_eq!(check_manifest_version(1), Ok(()));
    assert_eq!(check_manifest_version(2), Err(ManifestError::UnsupportedVersion(2)));
    assert_eq!(
        ManifestError::UnsupportedVersion(2).message(),
        "asset bundle manifest version 2 is unsupported; expected 1"
    );

    let ids = vec!["intro".to_owned(), " \t".to_owned(), "intro".to_owned(), "boss".to_owned()];
    assert_eq!(check_snapshot_entry_id(&ids, 0), Ok(()));
    assert_eq!(check_snapshot_entry_id(&ids, 1), Err(ManifestError::BlankSnapshotId));
    assert_eq!(
        check_snapshot_entry_id(&ids, 2),
        Err(ManifestError::DuplicateSnapshotId("intro".to_owned()))
    );
    assert_eq!(check_snapshot_entry_id(&ids, 3), Ok(()));
    assert_eq!(
        ManifestError::DuplicateSnapshotId("intro".to_owned()).message(),
        "asset bundle manifest duplicate snapshot id intro"
    );
    assert_eq!(
        ManifestError::BlankSnapshotId.message(),
        "asset bundle manifest snapshot id must not be empty"
    );
}

#[test]
fn blank_text_is_only_white_space() {
    assert!(is_blank(""));
    assert!(is_blank(" \t\n"));
    assert!(is_blank("\u{3000}"));
    assert!(!is_blank(" a "));
    assert!(!is_blank("x"));
}

#[test]
fn bundle_order_lists_snapshots_by_id_keeping_equal_ids_in_place() {
    let ids: Vec<String> = ["zeta", "alpha", "beta", "alpha", "al"].iter().map(|s| s.to_string()).collect();
    assert_eq!(bundle_order(&ids), vec![4, 1, 3, 2, 0]);
    assert_eq!(bundle_order(&Vec::new()), Vec::<usize>::new());
}

#[test]
fn text_less_compares_character_by_character() {
    assert!(text_less("al", "alpha"));
    assert!(!text_less("alpha", "al"));
    assert!(text_less("Zeta", "alpha"));
    assert!(!text_less("same", "same"));
    assert!(text_less("", "a"));
    assert!(text_less("é", "ê"));
}

#[test]
fn total_count_adds_counts_and_reports_overflow() {
    assert_eq!(total_count(&vec![3, 4, 5]), Some(12));
    assert_eq!(total_count(&Vec::new()), Some(0));
    assert_eq!(total_count(&vec![usize::MAX, 1]), None);
}

#[test]
fn root_task_ids_lists_tasks_without_parent_in_order() {
    let tasks = vec![
        task(3, 1, None, 3, WaitReason::Ready),
        task(4, 2, Some(3), 3, WaitReason::Ready),
        task(1, 1, None, 1, WaitReason::ChildrenAll),
    ];
    assert_eq!(root_task_ids(&tasks), vec![3, 1]);
    assert_eq!(root_task_ids(&Vec::new()), Vec::<u32>::new());
}
