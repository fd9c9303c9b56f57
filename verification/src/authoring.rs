//! Program catalog documents: a data form of programs that compiles, after validation,
//! to an owned catalog.
use vstd::prelude::*;

use crate::ids::{ActionId, HostCallId, MindId, PredicateId, ProgramId, SignalId};
use crate::runtime::{executed, Outcome, RuntimeError, TaskRecord};
use crate::snapshot::RuntimeSnapshot;
use crate::program::{
    repeat_ops, sync_ops, HostCall, Op, OwnedProgram, Program, ProgramCatalog,
};

verus! {

#[derive(Clone, Debug, Default, PartialEq, Eq)]
pub struct ProgramCatalogDocument {
    pub programs: Vec<ProgramDocument>,
}

#[derive(Clone, Debug, PartialEq, Eq)]
pub struct ProgramDocument {
    pub id: ProgramId,
    pub ops: Vec<OpDocument>,
}

/// One authored op. `RepeatCount` and `SyncChildren` expand to several runtime ops;
/// `RaceChildren` is another name for `Race2`.
#[derive(Clone, Copy, Debug, PartialEq, Eq)]
pub enum OpDocument {
    Action { action: ActionId },
    Call { call: HostCallId, arg0: i32, arg1: i32, arg2: i32, arg3: i32 },
    ChangeMind { mind: MindId },
    RepeatUntilPredicate { predicate: PredicateId, program: ProgramId },
    WaitUntilTick { until_tick: u64 },
    WaitSignalUntilTick { signal: SignalId, until_tick: u64 },
    TimeoutUntilTick { until_tick: u64, program: ProgramId },
    RaceChildrenUntilTick { left: ProgramId, right: ProgramId, until_tick: u64 },
    RaceChildrenOrTicks { left: ProgramId, right: ProgramId, ticks: u32 },
    TimeoutTicks { ticks: u32, program: ProgramId },
    WaitSignalOrTicks { signal: SignalId, ticks: u32 },
    WaitTicks { ticks: u32 },
    WaitSignal { signal: SignalId },
    WaitPredicate { predicate: PredicateId },
    Spawn { program: ProgramId },
    RepeatCount { count: u32, program: ProgramId },
    SyncChildren { left: ProgramId, right: ProgramId },
    BranchPredicate { predicate: PredicateId, if_true: ProgramId, if_false: ProgramId },
    JoinChildren,
    JoinAnyChildren,
    RaceChildren { left: ProgramId, right: ProgramId },
    Race2 { left: ProgramId, right: ProgramId },
    Succeed,
    Fail,
}

/// A compiled catalog that owns its programs.
#[derive(Clone, Debug, Default, PartialEq, Eq)]
pub struct OwnedProgramCatalog {
    programs: Vec<OwnedProgram>,
}

#[derive(Clone, Copy, Debug, PartialEq, Eq, Structural)]
pub enum CompileError {
    EmptyCatalog,
    EmptyProgram { program_id: ProgramId },
    DuplicateProgramId(ProgramId),
    UnknownProgramReference { owner: ProgramId, target: ProgramId },
}

/// Whether an op expands to several runtime ops.
pub open spec fn is_macro_op(op: OpDocument) -> bool {
    op is RepeatCount || op is SyncChildren
}

/// The runtime op of a single-op document op.
pub open spec fn spec_compile_op(op: OpDocument) -> Op {
    match op {
        OpDocument::Action { action } => Op::Action(action),
        OpDocument::Call { call, arg0, arg1, arg2, arg3 } => Op::Call(
            HostCall { id: call, args: [arg0, arg1, arg2, arg3] },
        ),
        OpDocument::ChangeMind { mind } => Op::ChangeMind(mind),
        OpDocument::RepeatUntilPredicate { predicate, program } => Op::RepeatUntilPredicate(
            predicate,
            program,
        ),
        OpDocument::WaitUntilTick { until_tick } => Op::WaitUntilTick(until_tick),
        OpDocument::WaitSignalUntilTick { signal, until_tick } => Op::WaitSignalUntilTick(
            signal,
            until_tick,
        ),
        OpDocument::TimeoutUntilTick { until_tick, program } => Op::TimeoutUntilTick(
            until_tick,
            program,
        ),
        OpDocument::RaceChildrenUntilTick { left, right, until_tick } => Op::RaceChildrenUntilTick(
            left,
            right,
            until_tick,
        ),
        OpDocument::RaceChildrenOrTicks { left, right, ticks } => Op::RaceChildrenOrTicks(
            left,
            right,
            ticks,
        ),
        OpDocument::TimeoutTicks { ticks, program } => Op::TimeoutTicks(ticks, program),
        OpDocument::WaitSignalOrTicks { signal, ticks } => Op::WaitSignalOrTicks(signal, ticks),
        OpDocument::WaitTicks { ticks } => Op::WaitTicks(ticks),
        OpDocument::WaitSignal { signal } => Op::WaitSignal(signal),
        OpDocument::WaitPredicate { predicate } => Op::WaitPredicate(predicate),
        OpDocument::Spawn { program } => Op::Spawn(program),
        OpDocument::BranchPredicate { predicate, if_true, if_false } => Op::BranchPredicate(
            predicate,
            if_true,
            if_false,
        ),
        OpDocument::JoinChildren => Op::JoinChildren,
        OpDocument::JoinAnyChildren => Op::JoinAnyChildren,
        OpDocument::RaceChildren { left, right } => Op::Race2(left, right),
        OpDocument::Race2 { left, right } => Op::Race2(left, right),
        OpDocument::Succeed => Op::Succeed,
        OpDocument::Fail => Op::Fail,
        // The two expanding ops have no single-op form.
        OpDocument::RepeatCount { .. } => Op::Succeed,
        OpDocument::SyncChildren { .. } => Op::Succeed,
    }
}

/// The runtime ops an authored op lowers to.
pub open spec fn lower_op(op: OpDocument) -> Seq<Op> {
    match op {
        OpDocument::RepeatCount { count, program } => repeat_ops(count as nat, program),
        OpDocument::SyncChildren { left, right } => sync_ops(left, right),
        _ => seq![spec_compile_op(op)],
    }
}

/// The runtime ops a list of authored ops lowers to.
pub open spec fn lower_ops(ops: Seq<OpDocument>) -> Seq<Op>
    decreases ops.len(),
{
    if ops.len() == 0 {
        Seq::empty()
    } else {
        lower_ops(ops.drop_last()) + lower_op(ops.last())
    }
}

/// The programs an authored op refers to, in field order.
pub open spec fn op_references(op: OpDocument) -> Seq<ProgramId> {
    match op {
        OpDocument::Spawn { program } => seq![program],
        OpDocument::RepeatUntilPredicate { program, .. } => seq![program],
        OpDocument::TimeoutUntilTick { program, .. } => seq![program],
        OpDocument::RaceChildrenUntilTick { left, right, .. } => seq![left, right],
        OpDocument::RaceChildrenOrTicks { left, right, .. } => seq![left, right],
        OpDocument::TimeoutTicks { program, .. } => seq![program],
        OpDocument::RepeatCount { program, .. } => seq![program],
        OpDocument::SyncChildren { left, right } => seq![left, right],
        OpDocument::BranchPredicate { if_true, if_false, .. } => seq![if_true, if_false],
        OpDocument::RaceChildren { left, right } => seq![left, right],
        OpDocument::Race2 { left, right } => seq![left, right],
        _ => Seq::empty(),
    }
}

/// The programs a list of authored ops refers to, in order.
pub open spec fn ops_references(ops: Seq<OpDocument>) -> Seq<ProgramId>
    decreases ops.len(),
{
    if ops.len() == 0 {
        Seq::empty()
    } else {
        ops_references(ops.drop_last()) + op_references(ops.last())
    }
}

pub open spec fn doc_ids(programs: Seq<ProgramDocument>) -> Seq<ProgramId> {
    programs.map_values(|p: ProgramDocument| p.id)
}

/// The first program, from `i` on, that has no ops or repeats an earlier id.
pub open spec fn structure_error(programs: Seq<ProgramDocument>, i: int) -> Option<CompileError>
    decreases programs.len() - i,
{
    if i < 0 || i >= programs.len() {
        None
    } else if programs[i].ops@.len() == 0 {
        Some(CompileError::EmptyProgram { program_id: programs[i].id })
    } else if doc_ids(programs).take(i).contains(programs[i].id) {
        Some(CompileError::DuplicateProgramId(programs[i].id))
    } else {
        structure_error(programs, i + 1)
    }
}

/// The first reference, from index `j` on, to a program that is not in `ids`.
pub open spec fn first_missing(refs: Seq<ProgramId>, ids: Seq<ProgramId>, j: int) -> Option<
    ProgramId,
>
    decreases refs.len() - j,
{
    if j < 0 || j >= refs.len() {
        None
    } else if !ids.contains(refs[j]) {
        Some(refs[j])
    } else {
        first_missing(refs, ids, j + 1)
    }
}

/// The first program, from `i` on, that refers to a missing program.
pub open spec fn reference_error(programs: Seq<ProgramDocument>, i: int) -> Option<CompileError>
    decreases programs.len() - i,
{
    if i < 0 || i >= programs.len() {
        None
    } else {
        match first_missing(ops_references(programs[i].ops@), doc_ids(programs), 0) {
            Some(target) => Some(
                CompileError::UnknownProgramReference { owner: programs[i].id, target },
            ),
            None => reference_error(programs, i + 1),
        }
    }
}

/// Why a catalog document does not compile, if it does not: an empty catalog first; then
/// the first program that is empty or repeats an id; then the first dangling reference.
pub open spec fn catalog_error(programs: Seq<ProgramDocument>) -> Option<CompileError> {
    if programs.len() == 0 {
        Some(CompileError::EmptyCatalog)
    } else {
        match structure_error(programs, 0) {
            Some(e) => Some(e),
            None => reference_error(programs, 0),
        }
    }
}

/// The compiled form of one program document.
pub open spec fn compiled(doc: ProgramDocument, program: OwnedProgram) -> bool {
    program.program_id() == doc.id && program.op_seq() == lower_ops(doc.ops@)
}

impl OpDocument {
    /// The runtime op of a single-op document op (`RepeatCount` and `SyncChildren` expand
    /// to several ops and are lowered by `ProgramDocument::compile`).
    pub fn compile(&self) -> (op: Op)
        requires
            !is_macro_op(*self),
        ensures
            op == spec_compile_op(*self),
    {
        match self {
            OpDocument::Action { action } => Op::Action(*action),
            OpDocument::Call { call, arg0, arg1, arg2, arg3 } => Op::Call(
                HostCall::new(*call, [*arg0, *arg1, *arg2, *arg3]),
            ),
            OpDocument::ChangeMind { mind } => Op::ChangeMind(*mind),
            OpDocument::RepeatUntilPredicate { predicate, program } => Op::RepeatUntilPredicate(
                *predicate,
                *program,
            ),
            OpDocument::WaitUntilTick { until_tick } => Op::WaitUntilTick(*until_tick),
            OpDocument::WaitSignalUntilTick { signal, until_tick } => Op::WaitSignalUntilTick(
                *signal,
                *until_tick,
            ),
            OpDocument::TimeoutUntilTick { until_tick, program } => Op::TimeoutUntilTick(
                *until_tick,
                *program,
            ),
            OpDocument::RaceChildrenUntilTick { left, right, until_tick } => {
                Op::RaceChildrenUntilTick(*left, *right, *until_tick)
            },
            OpDocument::RaceChildrenOrTicks { left, right, ticks } => Op::RaceChildrenOrTicks(
                *left,
                *right,
                *ticks,
            ),
            OpDocument::TimeoutTicks { ticks, program } => Op::TimeoutTicks(*ticks, *program),
            OpDocument::WaitSignalOrTicks { signal, ticks } => Op::WaitSignalOrTicks(
                *signal,
                *ticks,
            ),
            OpDocument::WaitTicks { ticks } => Op::WaitTicks(*ticks),
            OpDocument::WaitSignal { signal } => Op::WaitSignal(*signal),
            OpDocument::WaitPredicate { predicate } => Op::WaitPredicate(*predicate),
            OpDocument::Spawn { program } => Op::Spawn(*program),
            OpDocument::BranchPredicate { predicate, if_true, if_false } => Op::BranchPredicate(
                *predicate,
                *if_true,
                *if_false,
            ),
            OpDocument::JoinChildren => Op::JoinChildren,
            OpDocument::JoinAnyChildren => Op::JoinAnyChildren,
            OpDocument::RaceChildren { left, right } => Op::Race2(*left, *right),
            OpDocument::Race2 { left, right } => Op::Race2(*left, *right),
            OpDocument::Succeed => Op::Succeed,
            OpDocument::Fail => Op::Fail,
            OpDocument::RepeatCount { .. } => Op::Succeed,
            OpDocument::SyncChildren { .. } => Op::Succeed,
        }
    }
}

impl ProgramDocument {
    /// Lowers every op, expanding `RepeatCount` and `SyncChildren`.
    pub fn compile(&self) -> (program: OwnedProgram)
        ensures
            compiled(*self, program),
    {
        let mut program = OwnedProgram::new(self.id);
        let mut index: usize = 0;
        while index < self.ops.len()
            invariant
                index <= self.ops@.len(),
                program.program_id() == self.id,
                program.op_seq() == lower_ops(self.ops@.take(index as int)),
            decreases self.ops@.len() - index,
        {
            let op = self.ops[index];
            proof {
                assert(self.ops@.take(index + 1).drop_last() =~= self.ops@.take(index as int));
            }
            match op {
                OpDocument::RepeatCount { count, program: child } => {
                    program.repeat_count(count, child);
                },
                OpDocument::SyncChildren { left, right } => {
                    program.sync_children(left, right);
                },
                _ => {
                    program.push(op.compile());
                    proof {
                        assert(program.op_seq() =~= lower_ops(self.ops@.take(index + 1)));
                    }
                },
            }
            index = index + 1;
        }
        proof {
            assert(self.ops@.take(self.ops@.len() as int) =~= self.ops@);
        }
        program
    }

    /// The programs this document refers to, in order.
    fn referenced_programs(&self) -> (referenced: Vec<ProgramId>)
        ensures
            referenced@ == ops_references(self.ops@),
    {
        let mut referenced: Vec<ProgramId> = Vec::new();
        let mut index: usize = 0;
        while index < self.ops.len()
            invariant
                index <= self.ops@.len(),
                referenced@ == ops_references(self.ops@.take(index as int)),
            decreases self.ops@.len() - index,
        {
            proof {
                assert(self.ops@.take(index + 1).drop_last() =~= self.ops@.take(index as int));
            }
            match self.ops[index] {
                OpDocument::Spawn { program } => referenced.push(program),
                OpDocument::RepeatUntilPredicate { program, .. } => referenced.push(program),
                OpDocument::TimeoutUntilTick { program, .. } => referenced.push(program),
                OpDocument::RaceChildrenUntilTick { left, right, .. } => {
                    referenced.push(left);
                    referenced.push(right);
                },
                OpDocument::RaceChildrenOrTicks { left, right, .. } => {
                    referenced.push(left);
                    referenced.push(right);
                },
                OpDocument::TimeoutTicks { program, .. } => referenced.push(program),
                OpDocument::RepeatCount { program, .. } => referenced.push(program),
                OpDocument::SyncChildren { left, right } => {
                    referenced.push(left);
                    referenced.push(right);
                },
                OpDocument::BranchPredicate { if_true, if_false, .. } => {
                    referenced.push(if_true);
                    referenced.push(if_false);
                },
                OpDocument::RaceChildren { left, right } => {
                    referenced.push(left);
                    referenced.push(right);
                },
                OpDocument::Race2 { left, right } => {
                    referenced.push(left);
                    referenced.push(right);
                },
                _ => {},
            }
            proof {
                assert(referenced@ =~= ops_references(self.ops@.take(index + 1)));
            }
            index = index + 1;
        }
        proof {
            assert(self.ops@.take(self.ops@.len() as int) =~= self.ops@);
        }
        referenced
    }
}

fn contains_id(ids: &Vec<ProgramId>, id: ProgramId) -> (found: bool)
    ensures
        found == ids@.contains(id),
{
    let mut index: usize = 0;
    while index < ids.len()
        invariant
            index <= ids@.len(),
            forall|j: int| 0 <= j < index ==> ids@[j] != id,
        decreases ids@.len() - index,
    {
        if ids[index] == id {
            assert(ids@[index as int] == id);
            return true;
        }
        index = index + 1;
    }
    false
}

impl ProgramCatalogDocument {
    /// Validates the document (see `catalog_error`) and compiles every program, in order.
    pub fn compile(&self) -> (r: Result<OwnedProgramCatalog, CompileError>)
        ensures
            match catalog_error(self.programs@) {
                Some(e) => r == Err::<OwnedProgramCatalog, CompileError>(e),
                None => r matches Ok(catalog) && catalog.program_list().len()
                    == self.programs@.len() && forall|i: int|
                    0 <= i < self.programs@.len() ==> compiled(
                        self.programs@[i],
                        #[trigger] catalog.program_list()[i],
                    ),
            },
    {
        let programs = &self.programs;
        if programs.len() == 0 {
            return Err(CompileError::EmptyCatalog);
        }
        let mut seen: Vec<ProgramId> = Vec::new();
        let mut index: usize = 0;
        while index < programs.len()
            invariant
                index <= programs@.len(),
                programs@ == self.programs@,
                programs@.len() > 0,
                seen@ == doc_ids(programs@).take(index as int),
                structure_error(programs@, 0) == structure_error(programs@, index as int),
            decreases programs@.len() - index,
        {
            let program = &programs[index];
            if program.ops.len() == 0 {
                proof {
                    assert(structure_error(programs@, index as int) == Some(
                        CompileError::EmptyProgram { program_id: program.id },
                    ));
                }
                return Err(CompileError::EmptyProgram { program_id: program.id });
            }
            if contains_id(&seen, program.id) {
                proof {
                    assert(structure_error(programs@, index as int) == Some(
                        CompileError::DuplicateProgramId(program.id),
                    ));
                }
                return Err(CompileError::DuplicateProgramId(program.id));
            }
            seen.push(program.id);
            proof {
                assert(seen@ =~= doc_ids(programs@).take(index + 1));
            }
            index = index + 1;
        }
        proof {
            assert(seen@ =~= doc_ids(programs@));
        }
        let mut index: usize = 0;
        while index < programs.len()
            invariant
                index <= programs@.len(),
                programs@ == self.programs@,
                programs@.len() > 0,
                seen@ == doc_ids(programs@),
                structure_error(programs@, 0) is None,
                reference_error(programs@, 0) == reference_error(programs@, index as int),
            decreases programs@.len() - index,
        {
            let program = &programs[index];
            let targets = program.referenced_programs();
            let mut j: usize = 0;
            while j < targets.len()
                invariant
                    j <= targets@.len(),
                    index < programs@.len(),
                    programs@ == self.programs@,
                    programs@.len() > 0,
                    structure_error(programs@, 0) is None,
                    reference_error(programs@, 0) == reference_error(programs@, index as int),
                    program == programs@[index as int],
                    targets@ == ops_references(programs@[index as int].ops@),
                    seen@ == doc_ids(programs@),
                    first_missing(targets@, seen@, 0) == first_missing(targets@, seen@, j as int),
                decreases targets@.len() - j,
            {
                let target = targets[j];
                if !contains_id(&seen, target) {
                    proof {
                        assert(first_missing(targets@, seen@, j as int) == Some(target));
                        assert(reference_error(programs@, index as int) == Some(
                            CompileError::UnknownProgramReference { owner: program.id, target },
                        ));
                    }
                    return Err(
                        CompileError::UnknownProgramReference { owner: program.id, target },
                    );
                }
                j = j + 1;
            }
            index = index + 1;
        }
        let mut compiled_programs: Vec<OwnedProgram> = Vec::new();
        let mut index: usize = 0;
        while index < programs.len()
            invariant
                index <= programs@.len(),
                programs@ == self.programs@,
                programs@.len() > 0,
                structure_error(programs@, 0) is None,
                reference_error(programs@, 0) is None,
                compiled_programs@.len() == index,
                forall|i: int|
                    0 <= i < index ==> compiled(programs@[i], #[trigger] compiled_programs@[i]),
            decreases programs@.len() - index,
        {
            compiled_programs.push(programs[index].compile());
            index = index + 1;
        }
        Ok(OwnedProgramCatalog::new(compiled_programs))
    }
}

impl OwnedProgramCatalog {
    /// The programs, in order.
    pub closed spec fn program_list(self) -> Seq<OwnedProgram> {
        self.programs@
    }

    pub fn new(programs: Vec<OwnedProgram>) -> (catalog: Self)
        ensures
            catalog.program_list() == programs@,
    {
        OwnedProgramCatalog { programs }
    }

    pub fn programs(&self) -> (programs: &[OwnedProgram])
        ensures
            programs@ == self.program_list(),
    {
        self.programs.as_slice()
    }

    /// The first program whose id is `id`.
    pub fn get(&self, id: ProgramId) -> (r: Option<&OwnedProgram>)
        ensures
            match r {
                Some(p) => exists|i: int|
                    0 <= i < self.program_list().len() && self.program_list()[i] == *p && p.program_id()
                        == id && forall|j: int|
                        0 <= j < i ==> (#[trigger] self.program_list()[j]).program_id() != id,
                None => forall|j: int|
                    0 <= j < self.program_list().len() ==> (
                    #[trigger] self.program_list()[j]).program_id() != id,
            },
    {
        let mut index: usize = 0;
        while index < self.programs.len()
            invariant
                index <= self.programs@.len(),
                forall|j: int| 0 <= j < index ==> (#[trigger] self.programs@[j]).program_id() != id,
            decreases self.programs@.len() - index,
        {
            if self.programs[index].id() == id {
                proof {
                    assert(self.program_list()[index as int] == self.programs@[index as int]);
                }
                return Some(&self.programs[index]);
            }
            index = index + 1;
        }
        None
    }

    /// Borrowed views of the programs, in order.
    pub fn borrowed_programs(&self) -> (borrowed: Vec<Program<'_>>)
        ensures
            borrowed@.len() == self.program_list().len(),
            forall|i: int|
                0 <= i < borrowed@.len() ==> (#[trigger] borrowed@[i]).id == self.program_list()[i].program_id()
                    && borrowed@[i].ops@ == self.program_list()[i].op_seq(),
    {
        let mut borrowed: Vec<Program<'_>> = Vec::new();
        let mut index: usize = 0;
        while index < self.programs.len()
            invariant
                index <= self.programs@.len(),
                borrowed@.len() == index,
                forall|i: int|
                    0 <= i < index ==> (#[trigger] borrowed@[i]).id == self.programs@[i].program_id()
                        && borrowed@[i].ops@ == self.programs@[i].op_seq(),
            decreases self.programs@.len() - index,
        {
            borrowed.push(self.programs[index].as_program());
            index = index + 1;
        }
        borrowed
    }

    /// Calls `f` with a borrowed catalog of these programs, in order.
    pub fn with_catalog<R>(&self, f: impl FnOnce(ProgramCatalog<'_>) -> R) -> (r: R)
        requires
            forall|c: ProgramCatalog| borrows_programs(c, self.program_list()) ==> f.requires((c,)),
        ensures
            exists|c: ProgramCatalog| borrows_programs(c, self.program_list()) && f.ensures((c,), r),
    {
        let borrowed = self.borrowed_programs();
        let catalog = ProgramCatalog::new(borrowed.as_slice());
        proof {
            assert(borrows_programs(catalog, self.program_list()));
        }
        let r = f(catalog);
        r
    }
}

proof fn lemma_structure_error_none_from(programs: Seq<ProgramDocument>, i0: int, i: int)
    requires
        0 <= i0 <= i,
        structure_error(programs, i0) is None,
    ensures
        structure_error(programs, i) is None,
    decreases i - i0,
{
    if i0 < i && i0 < programs.len() {
        lemma_structure_error_none_from(programs, i0 + 1, i);
    }
}

proof fn lemma_reference_error_none_from(programs: Seq<ProgramDocument>, i0: int, i: int)
    requires
        0 <= i0 <= i,
        reference_error(programs, i0) is None,
    ensures
        reference_error(programs, i) is None,
    decreases i - i0,
{
    if i0 < i && i0 < programs.len() {
        lemma_reference_error_none_from(programs, i0 + 1, i);
    }
}

proof fn lemma_first_missing_none_from(refs: Seq<ProgramId>, ids: Seq<ProgramId>, j0: int, j: int)
    requires
        0 <= j0 <= j < refs.len(),
        first_missing(refs, ids, j0) is None,
    ensures
        ids.contains(refs[j]),
    decreases j - j0,
{
    if j0 < j {
        lemma_first_missing_none_from(refs, ids, j0 + 1, j);
    }
}

/// A catalog document that compiles has programs with distinct ids, none of them empty.
pub proof fn lemma_compiled_programs_distinct(programs: Seq<ProgramDocument>, i: int, j: int)
    requires
        catalog_error(programs) is None,
        0 <= i < j < programs.len(),
    ensures
        programs[i].id != programs[j].id,
        programs[i].ops@.len() > 0,
        programs[j].ops@.len() > 0,
{
    lemma_structure_error_none_from(programs, 0, i);
    lemma_structure_error_none_from(programs, 0, j);
    assert(doc_ids(programs).take(j)[i] == programs[i].id);
}

/// A catalog document that compiles refers only to programs it holds: every program that
/// an op of it names is the id of one of its programs.
pub proof fn lemma_compiled_references_resolve(programs: Seq<ProgramDocument>, i: int, j: int)
    requires
        catalog_error(programs) is None,
        0 <= i < programs.len(),
        0 <= j < ops_references(programs[i].ops@).len(),
    ensures
        doc_ids(programs).contains(ops_references(programs[i].ops@)[j]),
{
    lemma_reference_error_none_from(programs, 0, i);
    lemma_first_missing_none_from(ops_references(programs[i].ops@), doc_ids(programs), 0, j);
}

/// The converse of the two laws above: a non-empty catalog document whose programs are
/// non-empty, have distinct ids and name only programs it holds compiles.
pub proof fn lemma_well_formed_document_compiles(programs: Seq<ProgramDocument>)
    requires
        programs.len() > 0,
        forall|i: int| 0 <= i < programs.len() ==> (#[trigger] programs[i]).ops@.len() > 0,
        forall|i: int, j: int|
            0 <= i < j < programs.len() ==> (#[trigger] programs[i]).id != (#[trigger] programs[j]).id,
        forall|i: int, j: int|
            0 <= i < programs.len() && 0 <= j < ops_references(programs[i].ops@).len()
                ==> doc_ids(programs).contains(#[trigger] ops_references(programs[i].ops@)[j]),
    ensures
        catalog_error(programs) is None,
{
    lemma_structure_ok_from(programs, 0);
    lemma_references_ok_from(programs, 0);
}

proof fn lemma_structure_ok_from(programs: Seq<ProgramDocument>, i: int)
    requires
        0 <= i <= programs.len(),
        forall|k: int| 0 <= k < programs.len() ==> (#[trigger] programs[k]).ops@.len() > 0,
        forall|a: int, b: int|
            0 <= a < b < programs.len() ==> (#[trigger] programs[a]).id != (#[trigger] programs[b]).id,
    ensures
        structure_error(programs, i) is None,
    decreases programs.len() - i,
{
    if i < programs.len() {
        lemma_structure_ok_from(programs, i + 1);
        assert(programs[i].ops@.len() > 0);
        assert forall|a: int| 0 <= a < i implies doc_ids(programs).take(i)[a] != programs[i].id by {
            assert(doc_ids(programs).take(i)[a] == programs[a].id);
        }
    }
}

proof fn lemma_first_missing_ok_from(refs: Seq<ProgramId>, ids: Seq<ProgramId>, j: int)
    requires
        0 <= j <= refs.len(),
        forall|k: int| 0 <= k < refs.len() ==> ids.contains(#[trigger] refs[k]),
    ensures
        first_missing(refs, ids, j) is None,
    decreases refs.len() - j,
{
    if j < refs.len() {
        lemma_first_missing_ok_from(refs, ids, j + 1);
        assert(ids.contains(refs[j]));
    }
}

proof fn lemma_references_ok_from(programs: Seq<ProgramDocument>, i: int)
    requires
        0 <= i <= programs.len(),
        forall|a: int, j: int|
            0 <= a < programs.len() && 0 <= j < ops_references(programs[a].ops@).len()
                ==> doc_ids(programs).contains(#[trigger] ops_references(programs[a].ops@)[j]),
    ensures
        reference_error(programs, i) is None,
    decreases programs.len() - i,
{
    if i < programs.len() {
        lemma_references_ok_from(programs, i + 1);
        let refs = ops_references(programs[i].ops@);
        assert forall|k: int| 0 <= k < refs.len() implies doc_ids(programs).contains(
            #[trigger] refs[k],
        ) by {
            assert(doc_ids(programs).contains(ops_references(programs[i].ops@)[k]));
        }
        lemma_first_missing_ok_from(refs, doc_ids(programs), 0);
    }
}

/// A borrowed catalog that lists exactly these owned programs, in order.
pub open spec fn borrows_programs(c: ProgramCatalog, programs: Seq<OwnedProgram>) -> bool {
    &&& c.program_seq().len() == programs.len()
    &&& forall|i: int|
        0 <= i < programs.len() ==> (#[trigger] c.program_seq()[i]).id == programs[i].program_id()
            && c.program_seq()[i].ops@ == programs[i].op_seq()
}

/// `op` is of the same kind as the authored op `doc` and holds the same fields
/// (`RaceChildren` being another name for `Race2`; the expanding ops are not single ops).
pub open spec fn same_kind_and_fields(doc: OpDocument, op: Op) -> bool {
    match doc {
        OpDocument::Action { action } => op matches Op::Action(a) && a == action,
        OpDocument::Call { call, arg0, arg1, arg2, arg3 } => op matches Op::Call(c) && c.id == call
            && c.args[0] == arg0 && c.args[1] == arg1 && c.args[2] == arg2 && c.args[3] == arg3,
        OpDocument::ChangeMind { mind } => op matches Op::ChangeMind(m) && m == mind,
        OpDocument::RepeatUntilPredicate { predicate, program } => op matches Op::RepeatUntilPredicate(
            q,
            p,
        ) && q == predicate && p == program,
        OpDocument::WaitUntilTick { until_tick } => op matches Op::WaitUntilTick(u) && u == until_tick,
        OpDocument::WaitSignalUntilTick { signal, until_tick } => op matches Op::WaitSignalUntilTick(
            g,
            u,
        ) && g == signal && u == until_tick,
        OpDocument::TimeoutUntilTick { until_tick, program } => op matches Op::TimeoutUntilTick(u, p)
            && u == until_tick && p == program,
        OpDocument::RaceChildrenUntilTick { left, right, until_tick } => op matches Op::RaceChildrenUntilTick(
            l,
            r,
            u,
        ) && l == left && r == right && u == until_tick,
        OpDocument::RaceChildrenOrTicks { left, right, ticks } => op matches Op::RaceChildrenOrTicks(
            l,
            r,
            t,
        ) && l == left && r == right && t == ticks,
        OpDocument::TimeoutTicks { ticks, program } => op matches Op::TimeoutTicks(t, p) && t == ticks
            && p == program,
        OpDocument::WaitSignalOrTicks { signal, ticks } => op matches Op::WaitSignalOrTicks(g, t)
            && g == signal && t == ticks,
        OpDocument::WaitTicks { ticks } => op matches Op::WaitTicks(t) && t == ticks,
        OpDocument::WaitSignal { signal } => op matches Op::WaitSignal(g) && g == signal,
        OpDocument::WaitPredicate { predicate } => op matches Op::WaitPredicate(q) && q == predicate,
        OpDocument::Spawn { program } => op matches Op::Spawn(p) && p == program,
        OpDocument::BranchPredicate { predicate, if_true, if_false } => op matches Op::BranchPredicate(
            q,
            t,
            f,
        ) && q == predicate && t == if_true && f == if_false,
        OpDocument::JoinChildren => op is JoinChildren,
        OpDocument::JoinAnyChildren => op is JoinAnyChildren,
        OpDocument::RaceChildren { left, right } => op matches Op::Race2(l, r) && l == left && r
            == right,
        OpDocument::Race2 { left, right } => op matches Op::Race2(l, r) && l == left && r == right,
        OpDocument::Succeed => op is Succeed,
        OpDocument::Fail => op is Fail,
        OpDocument::RepeatCount { .. } => false,
        OpDocument::SyncChildren { .. } => false,
    }
}

/// Compiling a single-op document op gives the runtime op of the same kind with the same
/// fields, and lowering it gives that one op.
pub proof fn lemma_compile_op_keeps_kind_and_fields(doc: OpDocument)
    requires
        !is_macro_op(doc),
    ensures
        same_kind_and_fields(doc, spec_compile_op(doc)),
        lower_op(doc) == seq![spec_compile_op(doc)],
{
}

/// A compiled program document without expanding ops has one runtime op per authored op,
/// each of the same kind and with the same fields as the op it comes from, in order.
pub proof fn lemma_compiled_program_keeps_ops(doc: ProgramDocument, program: OwnedProgram)
    requires
        compiled(doc, program),
        forall|j: int| 0 <= j < doc.ops@.len() ==> !is_macro_op(#[trigger] doc.ops@[j]),
    ensures
        program.program_id() == doc.id,
        program.op_seq().len() == doc.ops@.len(),
        forall|j: int|
            0 <= j < doc.ops@.len() ==> same_kind_and_fields(doc.ops@[j], #[trigger] program.op_seq()[j]),
{
    lemma_lower_single_ops(doc.ops@);
}

proof fn lemma_lower_single_ops(ops: Seq<OpDocument>)
    requires
        forall|j: int| 0 <= j < ops.len() ==> !is_macro_op(#[trigger] ops[j]),
    ensures
        lower_ops(ops).len() == ops.len(),
        forall|j: int| 0 <= j < ops.len() ==> same_kind_and_fields(ops[j], #[trigger] lower_ops(ops)[j]),
    decreases ops.len(),
{
    if ops.len() > 0 {
        let init = ops.drop_last();
        assert forall|j: int| 0 <= j < init.len() implies !is_macro_op(#[trigger] init[j]) by {
            assert(init[j] == ops[j]);
        }
        lemma_lower_single_ops(init);
        lemma_compile_op_keeps_kind_and_fields(ops.last());
        assert forall|j: int| 0 <= j < ops.len() implies same_kind_and_fields(ops[j], #[trigger] lower_ops(ops)[j]) by {
            if j < ops.len() - 1 {
                assert(ops[j] == init[j]);
                assert(lower_ops(ops)[j] == lower_ops(init)[j]);
            } else {
                assert(lower_ops(ops)[j] == spec_compile_op(ops.last()));
            }
        }
    }
}

/// Running the compiled `Fail` op ends its task with `Failed`, and the compiled `Succeed`
/// op ends it with `Succeeded`: the task's record in its slot gets that outcome.
pub proof fn lemma_compiled_finish_ops_give_their_outcome<const N: usize, const S: usize>(
    doc: OpDocument,
    slot: int,
    task: TaskRecord,
    a: RuntimeSnapshot<N, S>,
    b: RuntimeSnapshot<N, S>,
    programs: Seq<Program>,
    r: Result<bool, RuntimeError>,
    answer: bool,
)
    requires
        doc is Fail || doc is Succeed,
        executed(spec_compile_op(doc), slot, task, a, b, programs, r, answer),
    ensures
        r == Ok::<bool, RuntimeError>(false),
        b.tasks@[slot] matches Some(t) && t.id == task.id && t.outcome == if doc is Fail {
            Outcome::Failed
        } else {
            Outcome::Succeeded
        },
{
}

/// The expanding ops lower to their fork/join form: `RepeatCount` to `count` rounds of
/// spawning its program then joining the children, `SyncChildren` to spawning both
/// programs, left first, then joining.
pub proof fn lemma_expanding_ops_lower_to_fork_join(doc: OpDocument)
    requires
        is_macro_op(doc),
    ensures
        doc matches OpDocument::RepeatCount { count, program } ==> {
            &&& lower_op(doc).len() == 2 * count
            &&& forall|i: int|
                0 <= i < count ==> #[trigger] lower_op(doc)[2 * i] == Op::Spawn(program)
                    && lower_op(doc)[2 * i + 1] == Op::JoinChildren
        },
        doc matches OpDocument::SyncChildren { left, right } ==> {
            &&& lower_op(doc).len() == 3
            &&& lower_op(doc)[0] == Op::Spawn(left)
            &&& lower_op(doc)[1] == Op::Spawn(right)
            &&& lower_op(doc)[2] == Op::JoinChildren
        },
{
    if let OpDocument::RepeatCount { count, program } = doc {
        lemma_repeat_ops_rounds(count as nat, program);
    }
}

proof fn lemma_repeat_ops_rounds(count: nat, program: ProgramId)
    ensures
        crate::program::repeat_ops(count, program).len() == 2 * count,
        forall|i: int|
            0 <= i < count ==> #[trigger] crate::program::repeat_ops(count, program)[2 * i] == Op::Spawn(
                program,
            ) && crate::program::repeat_ops(count, program)[2 * i + 1] == Op::JoinChildren,
    decreases count,
{
    if count > 0 {
        lemma_repeat_ops_rounds((count - 1) as nat, program);
        let prev = crate::program::repeat_ops((count - 1) as nat, program);
        let all = crate::program::repeat_ops(count, program);
        assert forall|i: int| 0 <= i < count implies #[trigger] all[2 * i] == Op::Spawn(program) && all[2 * i
            + 1] == Op::JoinChildren by {
            if i < count - 1 {
                assert(all[2 * i] == prev[2 * i]);
                assert(all[2 * i + 1] == prev[2 * i + 1]);
            } else {
                assert(2 * i == prev.len());
            }
        }
    }
}

} // verus!
