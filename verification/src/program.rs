//! Programs: the op set, fixed-capacity and owned authoring builders, and catalogs.
use vstd::prelude::*;

use crate::ids::{ActionId, HostCallId, MindId, PredicateId, ProgramId, SignalId};

verus! {

/// A host call with a fixed-size argument block.
#[derive(Clone, Copy, Debug, PartialEq, Eq)]
pub struct HostCall {
    pub id: HostCallId,
    pub args: [i32; 4],
}

impl HostCall {
    pub fn new(id: HostCallId, args: [i32; 4]) -> (call: Self)
        ensures
            call.id == id,
            call.args == args,
    {
        HostCall { id, args }
    }
}

/// One instruction of a program.
#[derive(Clone, Copy, Debug, PartialEq, Eq)]
pub enum Op {
    Action(ActionId),
    Call(HostCall),
    ChangeMind(MindId),
    RepeatUntilPredicate(PredicateId, ProgramId),
    WaitUntilTick(u64),
    WaitSignalUntilTick(SignalId, u64),
    TimeoutUntilTick(u64, ProgramId),
    RaceChildrenUntilTick(ProgramId, ProgramId, u64),
    RaceChildrenOrTicks(ProgramId, ProgramId, u32),
    TimeoutTicks(u32, ProgramId),
    WaitSignalOrTicks(SignalId, u32),
    WaitTicks(u32),
    WaitSignal(SignalId),
    WaitPredicate(PredicateId),
    Spawn(ProgramId),
    BranchPredicate(PredicateId, ProgramId, ProgramId),
    JoinChildren,
    JoinAnyChildren,
    Race2(ProgramId, ProgramId),
    Succeed,
    Fail,
}

/// Error of the fixed-capacity builder.
#[derive(Clone, Copy, Debug, PartialEq, Eq, Structural)]
pub enum BuildError {
    CapacityExceeded,
}

/// `count` repetitions of "spawn `program`, then join all children".
pub open spec fn repeat_ops(count: nat, program: ProgramId) -> Seq<Op>
    decreases count,
{
    if count == 0 {
        Seq::empty()
    } else {
        repeat_ops((count - 1) as nat, program) + seq![Op::Spawn(program), Op::JoinChildren]
    }
}

/// The two-child fork/join that `sync_children` expands to.
pub open spec fn sync_ops(left: ProgramId, right: ProgramId) -> Seq<Op> {
    seq![Op::Spawn(left), Op::Spawn(right), Op::JoinChildren]
}

/// Appending `extra` to `ops` in a buffer that holds at most `cap` ops: what fits is kept.
pub open spec fn append_capped(ops: Seq<Op>, extra: Seq<Op>, cap: nat) -> Seq<Op> {
    let all = ops + extra;
    if all.len() <= cap {
        all
    } else {
        all.take(cap as int)
    }
}

/// A borrowed program: an id and its ops.
#[derive(Clone, Copy, Debug)]
pub struct Program<'a> {
    pub id: ProgramId,
    pub ops: &'a [Op],
}

impl<'a> Program<'a> {
    pub fn new(id: ProgramId, ops: &'a [Op]) -> (program: Self)
        ensures
            program.id == id,
            program.ops@ == ops@,
    {
        Program { id, ops }
    }
}

/// A program builder backed by a fixed-capacity array (no allocation).
#[derive(Clone, Copy, Debug)]
pub struct ProgramBuilder<const CAPACITY: usize> {
    id: ProgramId,
    ops: [Op; CAPACITY],
    len: usize,
}

impl<const CAPACITY: usize> ProgramBuilder<CAPACITY> {
    #[verifier::type_invariant]
    spec fn inv(self) -> bool {
        self.len <= CAPACITY
    }

    /// The ops authored so far.
    pub closed spec fn op_seq(self) -> Seq<Op> {
        self.ops@.subrange(0, self.len as int)
    }

    /// The id of the program being authored.
    pub closed spec fn program_id(self) -> ProgramId {
        self.id
    }

    pub fn new(id: ProgramId) -> (builder: Self)
        ensures
            builder.program_id() == id,
            builder.op_seq() == Seq::<Op>::empty(),
    {
        ProgramBuilder { id, ops: [Op::Succeed; CAPACITY], len: 0 }
    }

    /// Appends `op` when there is room; otherwise reports `CapacityExceeded` and changes nothing.
    pub fn push(&mut self, op: Op) -> (r: Result<&mut Self, BuildError>)
        ensures
            r is Ok <==> old(self).op_seq().len() < CAPACITY,
            r matches Ok(b) ==> b.op_seq() == old(self).op_seq().push(op) && b.program_id()
                == old(self).program_id() && *final(self) == *final(b),
            r is Err ==> *final(self) == *old(self) && r == Err::<&mut Self, BuildError>(
                BuildError::CapacityExceeded,
            ),
    {
        proof {
            use_type_invariant(&*self);
        }
        if self.len >= CAPACITY {
            return Err(BuildError::CapacityExceeded);
        }
        self.ops[self.len] = op;
        self.len = self.len + 1;
        proof {
            assert(self.ops@.subrange(0, self.len as int) =~= old(self).ops@.subrange(
                0,
                old(self).len as int,
            ).push(op));
        }
        Ok(self)
    }

    /// Shared shape of the one-op authoring methods.
    pub open spec fn pushed_one(
        old_b: Self,
        final_b: Self,
        r: Result<&mut Self, BuildError>,
        op: Op,
    ) -> bool {
        &&& (r is Ok <==> old_b.op_seq().len() < CAPACITY)
        &&& (r matches Ok(b) ==> b.op_seq() == old_b.op_seq().push(op) && b.program_id()
            == old_b.program_id())
        &&& (r is Err ==> final_b == old_b && r == Err::<&mut Self, BuildError>(
            BuildError::CapacityExceeded,
        ))
    }

    pub fn action(&mut self, action: ActionId) -> (r: Result<&mut Self, BuildError>)
        ensures
            Self::pushed_one(*old(self), *final(self), r, Op::Action(action)),
            r matches Ok(b) ==> *final(self) == *final(b),
    {
        self.push(Op::Action(action))
    }

    pub fn call(&mut self, call_id: HostCallId, args: [i32; 4]) -> (r: Result<
        &mut Self,
        BuildError,
    >)
        ensures
            Self::pushed_one(*old(self), *final(self), r, Op::Call(HostCall { id: call_id, args })),
            r matches Ok(b) ==> *final(self) == *final(b),
    {
        self.push(Op::Call(HostCall::new(call_id, args)))
    }

    pub fn change_mind(&mut self, mind_id: MindId) -> (r: Result<&mut Self, BuildError>)
        ensures
            Self::pushed_one(*old(self), *final(self), r, Op::ChangeMind(mind_id)),
            r matches Ok(b) ==> *final(self) == *final(b),
    {
        self.push(Op::ChangeMind(mind_id))
    }

    pub fn repeat_until_predicate(&mut self, predicate: PredicateId, program_id: ProgramId) -> (r:
        Result<&mut Self, BuildError>)
        ensures
            Self::pushed_one(
                *old(self),
                *final(self),
                r,
                Op::RepeatUntilPredicate(predicate, program_id),
            ),
            r matches Ok(b) ==> *final(self) == *final(b),
    {
        self.push(Op::RepeatUntilPredicate(predicate, program_id))
    }

    pub fn wait_until_tick(&mut self, until_tick: u64) -> (r: Result<&mut Self, BuildError>)
        ensures
            Self::pushed_one(*old(self), *final(self), r, Op::WaitUntilTick(until_tick)),
            r matches Ok(b) ==> *final(self) == *final(b),
    {
        self.push(Op::WaitUntilTick(until_tick))
    }

    pub fn wait_signal_until_tick(&mut self, signal: SignalId, until_tick: u64) -> (r: Result<
        &mut Self,
        BuildError,
    >)
        ensures
            Self::pushed_one(
                *old(self),
                *final(self),
                r,
                Op::WaitSignalUntilTick(signal, until_tick),
            ),
            r matches Ok(b) ==> *final(self) == *final(b),
    {
        self.push(Op::WaitSignalUntilTick(signal, until_tick))
    }

    pub fn timeout_until_tick(&mut self, until_tick: u64, program_id: ProgramId) -> (r: Result<
        &mut Self,
        BuildError,
    >)
        ensures
            Self::pushed_one(
                *old(self),
                *final(self),
                r,
                Op::TimeoutUntilTick(until_tick, program_id),
            ),
            r matches Ok(b) ==> *final(self) == *final(b),
    {
        self.push(Op::TimeoutUntilTick(until_tick, program_id))
    }

    pub fn race_children_until_tick(
        &mut self,
        left_program: ProgramId,
        right_program: ProgramId,
        until_tick: u64,
    ) -> (r: Result<&mut Self, BuildError>)
        ensures
            Self::pushed_one(
                *old(self),
                *final(self),
                r,
                Op::RaceChildrenUntilTick(left_program, right_program, until_tick),
            ),
            r matches Ok(b) ==> *final(self) == *final(b),
    {
        self.push(Op::RaceChildrenUntilTick(left_program, right_program, until_tick))
    }

    pub fn race_children_or_ticks(
        &mut self,
        left_program: ProgramId,
        right_program: ProgramId,
        ticks: u32,
    ) -> (r: Result<&mut Self, BuildError>)
        ensures
            Self::pushed_one(
                *old(self),
                *final(self),
                r,
                Op::RaceChildrenOrTicks(left_program, right_program, ticks),
            ),
            r matches Ok(b) ==> *final(self) == *final(b),
    {
        self.push(Op::RaceChildrenOrTicks(left_program, right_program, ticks))
    }

    pub fn timeout_ticks(&mut self, ticks: u32, program_id: ProgramId) -> (r: Result<
        &mut Self,
        BuildError,
    >)
        ensures
            Self::pushed_one(*old(self), *final(self), r, Op::TimeoutTicks(ticks, program_id)),
            r matches Ok(b) ==> *final(self) == *final(b),
    {
        self.push(Op::TimeoutTicks(ticks, program_id))
    }

    pub fn wait_signal_or_ticks(&mut self, signal: SignalId, ticks: u32) -> (r: Result<
        &mut Self,
        BuildError,
    >)
        ensures
            Self::pushed_one(*old(self), *final(self), r, Op::WaitSignalOrTicks(signal, ticks)),
            r matches Ok(b) ==> *final(self) == *final(b),
    {
        self.push(Op::WaitSignalOrTicks(signal, ticks))
    }

    pub fn wait_ticks(&mut self, ticks: u32) -> (r: Result<&mut Self, BuildError>)
        ensures
            Self::pushed_one(*old(self), *final(self), r, Op::WaitTicks(ticks)),
            r matches Ok(b) ==> *final(self) == *final(b),
    {
        self.push(Op::WaitTicks(ticks))
    }

    pub fn wait_signal(&mut self, signal: SignalId) -> (r: Result<&mut Self, BuildError>)
        ensures
            Self::pushed_one(*old(self), *final(self), r, Op::WaitSignal(signal)),
            r matches Ok(b) ==> *final(self) == *final(b),
    {
        self.push(Op::WaitSignal(signal))
    }

    pub fn wait_predicate(&mut self, predicate: PredicateId) -> (r: Result<&mut Self, BuildError>)
        ensures
            Self::pushed_one(*old(self), *final(self), r, Op::WaitPredicate(predicate)),
            r matches Ok(b) ==> *final(self) == *final(b),
    {
        self.push(Op::WaitPredicate(predicate))
    }

    pub fn spawn(&mut self, program_id: ProgramId) -> (r: Result<&mut Self, BuildError>)
        ensures
            Self::pushed_one(*old(self), *final(self), r, Op::Spawn(program_id)),
            r matches Ok(b) ==> *final(self) == *final(b),
    {
        self.push(Op::Spawn(program_id))
    }

    pub fn branch_predicate(
        &mut self,
        predicate: PredicateId,
        if_true: ProgramId,
        if_false: ProgramId,
    ) -> (r: Result<&mut Self, BuildError>)
        ensures
            Self::pushed_one(
                *old(self),
                *final(self),
                r,
                Op::BranchPredicate(predicate, if_true, if_false),
            ),
            r matches Ok(b) ==> *final(self) == *final(b),
    {
        self.push(Op::BranchPredicate(predicate, if_true, if_false))
    }

    /// Appends `count` spawn/join pairs; on overflow, the pairs (and half-pair) that fit stay.
    pub fn repeat_count(&mut self, count: u32, program_id: ProgramId) -> (r: Result<
        &mut Self,
        BuildError,
    >)
        ensures
            r is Ok <==> old(self).op_seq().len() + 2 * count <= CAPACITY,
            r matches Ok(b) ==> b.op_seq() == old(self).op_seq() + repeat_ops(
                count as nat,
                program_id,
            ) && b.program_id() == old(self).program_id() && *final(self) == *final(b),
            r is Err ==> final(self).op_seq() == append_capped(
                old(self).op_seq(),
                repeat_ops(count as nat, program_id),
                CAPACITY as nat,
            ) && final(self).program_id() == old(self).program_id() && r == Err::<
                &mut Self,
                BuildError,
            >(BuildError::CapacityExceeded),
    {
        let mut remaining: u32 = 0;
        proof {
            use_type_invariant(&*self);
        }
        while remaining < count
            invariant
                remaining <= count,
                self.op_seq() == old(self).op_seq() + repeat_ops(remaining as nat, program_id),
                self.program_id() == old(self).program_id(),
                old(self).op_seq().len() + 2 * remaining <= CAPACITY,
            decreases count - remaining,
        {
            let ghost before = self.op_seq();
            proof {
                use_type_invariant(&*self);
                lemma_repeat_ops_len(count as nat, program_id);
                lemma_repeat_ops_len((remaining + 1) as nat, program_id);
            }
            match self.spawn(program_id) {
                Ok(_) => {},
                Err(e) => {
                    proof {
                        lemma_repeat_ops_prefix(remaining as nat, count as nat, program_id);
                        assert(append_capped(
                            old(self).op_seq(),
                            repeat_ops(count as nat, program_id),
                            CAPACITY as nat,
                        ) =~= self.op_seq());
                    }
                    return Err(e);
                },
            }
            match self.join_children() {
                Ok(_) => {},
                Err(e) => {
                    proof {
                        lemma_repeat_ops_prefix((remaining + 1) as nat, count as nat, program_id);
                        assert(repeat_ops((remaining + 1) as nat, program_id) =~= repeat_ops(
                            remaining as nat,
                            program_id,
                        ) + seq![Op::Spawn(program_id), Op::JoinChildren]);
                        let full = repeat_ops(count as nat, program_id);
                        assert(full.take(2 * remaining + 1) =~= full.take(2 * remaining + 2).take(
                            2 * remaining + 1,
                        ));
                        assert(full.take(2 * remaining + 1) =~= repeat_ops(
                            remaining as nat,
                            program_id,
                        ).push(Op::Spawn(program_id)));
                        assert(append_capped(
                            old(self).op_seq(),
                            repeat_ops(count as nat, program_id),
                            CAPACITY as nat,
                        ) =~= self.op_seq());
                    }
                    return Err(e);
                },
            }
            proof {
                assert(self.op_seq() =~= old(self).op_seq() + repeat_ops(
                    (remaining + 1) as nat,
                    program_id,
                ));
            }
            remaining = remaining + 1;
        }
        proof {
            lemma_repeat_ops_len(count as nat, program_id);
        }
        Ok(self)
    }

    /// Appends spawn(left), spawn(right), join; on overflow, the ops that fit stay.
    pub fn sync_children(&mut self, left_program: ProgramId, right_program: ProgramId) -> (r:
        Result<&mut Self, BuildError>)
        ensures
            r is Ok <==> old(self).op_seq().len() + 3 <= CAPACITY,
            r matches Ok(b) ==> b.op_seq() == old(self).op_seq() + sync_ops(
                left_program,
                right_program,
            ) && b.program_id() == old(self).program_id() && *final(self) == *final(b),
            r is Err ==> final(self).op_seq() == append_capped(
                old(self).op_seq(),
                sync_ops(left_program, right_program),
                CAPACITY as nat,
            ) && final(self).program_id() == old(self).program_id() && r == Err::<
                &mut Self,
                BuildError,
            >(BuildError::CapacityExceeded),
    {
        let ghost start = self.op_seq();
        proof {
            use_type_invariant(&*self);
        }
        match self.spawn(left_program) {
            Ok(_) => {},
            Err(e) => {
                assert(append_capped(start, sync_ops(left_program, right_program), CAPACITY as nat)
                    =~= self.op_seq());
                return Err(e);
            },
        }
        proof {
            use_type_invariant(&*self);
        }
        match self.spawn(right_program) {
            Ok(_) => {},
            Err(e) => {
                assert(append_capped(start, sync_ops(left_program, right_program), CAPACITY as nat)
                    =~= self.op_seq());
                return Err(e);
            },
        }
        proof {
            use_type_invariant(&*self);
        }
        proof {
            assert(start + sync_ops(left_program, right_program) =~= start.push(
                Op::Spawn(left_program),
            ).push(Op::Spawn(right_program)).push(Op::JoinChildren));
        }
        if self.len >= CAPACITY {
            assert(append_capped(start, sync_ops(left_program, right_program), CAPACITY as nat)
                =~= self.op_seq());
            return Err(BuildError::CapacityExceeded);
        }
        self.join_children()
    }

    pub fn join_children(&mut self) -> (r: Result<&mut Self, BuildError>)
        ensures
            Self::pushed_one(*old(self), *final(self), r, Op::JoinChildren),
            r matches Ok(b) ==> *final(self) == *final(b),
    {
        self.push(Op::JoinChildren)
    }

    pub fn join_any_children(&mut self) -> (r: Result<&mut Self, BuildError>)
        ensures
            Self::pushed_one(*old(self), *final(self), r, Op::JoinAnyChildren),
            r matches Ok(b) ==> *final(self) == *final(b),
    {
        self.push(Op::JoinAnyChildren)
    }

    pub fn race2(&mut self, left_program: ProgramId, right_program: ProgramId) -> (r: Result<
        &mut Self,
        BuildError,
    >)
        ensures
            Self::pushed_one(*old(self), *final(self), r, Op::Race2(left_program, right_program)),
            r matches Ok(b) ==> *final(self) == *final(b),
    {
        self.push(Op::Race2(left_program, right_program))
    }

    /// Same op as `race2`.
    pub fn race_children(&mut self, left_program: ProgramId, right_program: ProgramId) -> (r:
        Result<&mut Self, BuildError>)
        ensures
            Self::pushed_one(*old(self), *final(self), r, Op::Race2(left_program, right_program)),
            r matches Ok(b) ==> *final(self) == *final(b),
    {
        self.race2(left_program, right_program)
    }

    pub fn succeed(&mut self) -> (r: Result<&mut Self, BuildError>)
        ensures
            Self::pushed_one(*old(self), *final(self), r, Op::Succeed),
            r matches Ok(b) ==> *final(self) == *final(b),
    {
        self.push(Op::Succeed)
    }

    pub fn fail(&mut self) -> (r: Result<&mut Self, BuildError>)
        ensures
            Self::pushed_one(*old(self), *final(self), r, Op::Fail),
            r matches Ok(b) ==> *final(self) == *final(b),
    {
        self.push(Op::Fail)
    }

    /// Borrows the authored ops as a program.
    pub fn program(&self) -> (program: Program<'_>)
        ensures
            program.id == self.program_id(),
            program.ops@ == self.op_seq(),
    {
        proof {
            use_type_invariant(self);
        }
        Program::new(self.id, vstd::slice::slice_subrange(self.ops.as_slice(), 0, self.len))
    }
}

pub proof fn lemma_repeat_ops_len(count: nat, program: ProgramId)
    ensures
        repeat_ops(count, program).len() == 2 * count,
    decreases count,
{
    if count > 0 {
        lemma_repeat_ops_len((count - 1) as nat, program);
    }
}

/// A shorter repetition is a prefix of a longer one.
pub proof fn lemma_repeat_ops_prefix(shorter: nat, longer: nat, program: ProgramId)
    requires
        shorter <= longer,
    ensures
        repeat_ops(longer, program).take(2 * shorter as int) == repeat_ops(shorter, program),
    decreases longer,
{
    lemma_repeat_ops_len(longer, program);
    lemma_repeat_ops_len(shorter, program);
    if shorter < longer {
        lemma_repeat_ops_prefix(shorter, (longer - 1) as nat, program);
        lemma_repeat_ops_len((longer - 1) as nat, program);
        assert(repeat_ops(longer, program).take(2 * shorter as int) =~= repeat_ops(
            (longer - 1) as nat,
            program,
        ).take(2 * shorter as int));
    } else {
        assert(repeat_ops(longer, program).take(2 * shorter as int) =~= repeat_ops(
            longer,
            program,
        ));
    }
}

/// An allocated program that can grow without a capacity limit.
#[derive(Clone, Debug, Default, PartialEq, Eq)]
pub struct OwnedProgram {
    id: ProgramId,
    ops: Vec<Op>,
}

impl OwnedProgram {
    /// The ops authored so far.
    pub closed spec fn op_seq(self) -> Seq<Op> {
        self.ops@
    }

    /// The id of the program.
    pub closed spec fn program_id(self) -> ProgramId {
        self.id
    }

    pub fn new(id: ProgramId) -> (program: Self)
        ensures
            program.program_id() == id,
            program.op_seq() == Seq::<Op>::empty(),
    {
        OwnedProgram { id, ops: Vec::new() }
    }

    pub fn id(&self) -> (id: ProgramId)
        ensures
            id == self.program_id(),
    {
        self.id
    }

    pub fn ops(&self) -> (ops: &[Op])
        ensures
            ops@ == self.op_seq(),
    {
        self.ops.as_slice()
    }

    /// Removes every op, keeping the id.
    pub fn clear(&mut self) -> (r: &mut Self)
        ensures
            r.op_seq() == Seq::<Op>::empty(),
            r.program_id() == old(self).program_id(),
            *final(self) == *final(r),
    {
        self.ops.clear();
        self
    }

    pub fn push(&mut self, op: Op) -> (r: &mut Self)
        ensures
            r.op_seq() == old(self).op_seq().push(op),
            r.program_id() == old(self).program_id(),
            *final(self) == *final(r),
    {
        self.ops.push(op);
        self
    }

    /// Shared shape of the one-op authoring methods.
    pub open spec fn appended(old_p: Self, r: Self, op: Op) -> bool {
        r.op_seq() == old_p.op_seq().push(op) && r.program_id() == old_p.program_id()
    }

    pub fn action(&mut self, action: ActionId) -> (r: &mut Self)
        ensures
            Self::appended(*old(self), *r, Op::Action(action)),
            *final(self) == *final(r),
    {
        self.push(Op::Action(action))
    }

    pub fn call(&mut self, call_id: HostCallId, args: [i32; 4]) -> (r: &mut Self)
        ensures
            Self::appended(*old(self), *r, Op::Call(HostCall { id: call_id, args })),
            *final(self) == *final(r),
    {
        self.push(Op::Call(HostCall::new(call_id, args)))
    }

    pub fn change_mind(&mut self, mind_id: MindId) -> (r: &mut Self)
        ensures
            Self::appended(*old(self), *r, Op::ChangeMind(mind_id)),
            *final(self) == *final(r),
    {
        self.push(Op::ChangeMind(mind_id))
    }

    pub fn repeat_until_predicate(&mut self, predicate: PredicateId, program_id: ProgramId) -> (r:
        &mut Self)
        ensures
            Self::appended(*old(self), *r, Op::RepeatUntilPredicate(predicate, program_id)),
            *final(self) == *final(r),
    {
        self.push(Op::RepeatUntilPredicate(predicate, program_id))
    }

    pub fn wait_until_tick(&mut self, until_tick: u64) -> (r: &mut Self)
        ensures
            Self::appended(*old(self), *r, Op::WaitUntilTick(until_tick)),
            *final(self) == *final(r),
    {
        self.push(Op::WaitUntilTick(until_tick))
    }

    pub fn wait_signal_until_tick(&mut self, signal: SignalId, until_tick: u64) -> (r: &mut Self)
        ensures
            Self::appended(*old(self), *r, Op::WaitSignalUntilTick(signal, until_tick)),
            *final(self) == *final(r),
    {
        self.push(Op::WaitSignalUntilTick(signal, until_tick))
    }

    pub fn timeout_until_tick(&mut self, until_tick: u64, program_id: ProgramId) -> (r: &mut Self)
        ensures
            Self::appended(*old(self), *r, Op::TimeoutUntilTick(until_tick, program_id)),
            *final(self) == *final(r),
    {
        self.push(Op::TimeoutUntilTick(until_tick, program_id))
    }

    pub fn race_children_until_tick(
        &mut self,
        left_program: ProgramId,
        right_program: ProgramId,
        until_tick: u64,
    ) -> (r: &mut Self)
        ensures
            Self::appended(
                *old(self),
                *r,
                Op::RaceChildrenUntilTick(left_program, right_program, until_tick),
            ),
            *final(self) == *final(r),
    {
        self.push(Op::RaceChildrenUntilTick(left_program, right_program, until_tick))
    }

    pub fn race_children_or_ticks(
        &mut self,
        left_program: ProgramId,
        right_program: ProgramId,
        ticks: u32,
    ) -> (r: &mut Self)
        ensures
            Self::appended(
                *old(self),
                *r,
                Op::RaceChildrenOrTicks(left_program, right_program, ticks),
            ),
            *final(self) == *final(r),
    {
        self.push(Op::RaceChildrenOrTicks(left_program, right_program, ticks))
    }

    pub fn timeout_ticks(&mut self, ticks: u32, program_id: ProgramId) -> (r: &mut Self)
        ensures
            Self::appended(*old(self), *r, Op::TimeoutTicks(ticks, program_id)),
            *final(self) == *final(r),
    {
        self.push(Op::TimeoutTicks(ticks, program_id))
    }

    pub fn wait_signal_or_ticks(&mut self, signal: SignalId, ticks: u32) -> (r: &mut Self)
        ensures
            Self::appended(*old(self), *r, Op::WaitSignalOrTicks(signal, ticks)),
            *final(self) == *final(r),
    {
        self.push(Op::WaitSignalOrTicks(signal, ticks))
    }

    pub fn wait_ticks(&mut self, ticks: u32) -> (r: &mut Self)
        ensures
            Self::appended(*old(self), *r, Op::WaitTicks(ticks)),
            *final(self) == *final(r),
    {
        self.push(Op::WaitTicks(ticks))
    }

    pub fn wait_signal(&mut self, signal: SignalId) -> (r: &mut Self)
        ensures
            Self::appended(*old(self), *r, Op::WaitSignal(signal)),
            *final(self) == *final(r),
    {
        self.push(Op::WaitSignal(signal))
    }

    pub fn wait_predicate(&mut self, predicate: PredicateId) -> (r: &mut Self)
        ensures
            Self::appended(*old(self), *r, Op::WaitPredicate(predicate)),
            *final(self) == *final(r),
    {
        self.push(Op::WaitPredicate(predicate))
    }

    pub fn spawn(&mut self, program_id: ProgramId) -> (r: &mut Self)
        ensures
            Self::appended(*old(self), *r, Op::Spawn(program_id)),
            *final(self) == *final(r),
    {
        self.push(Op::Spawn(program_id))
    }

    pub fn branch_predicate(
        &mut self,
        predicate: PredicateId,
        if_true: ProgramId,
        if_false: ProgramId,
    ) -> (r: &mut Self)
        ensures
            Self::appended(*old(self), *r, Op::BranchPredicate(predicate, if_true, if_false)),
            *final(self) == *final(r),
    {
        self.push(Op::BranchPredicate(predicate, if_true, if_false))
    }

    /// Appends `count` spawn/join pairs.
    pub fn repeat_count(&mut self, count: u32, program_id: ProgramId) -> (r: &mut Self)
        ensures
            r.op_seq() == old(self).op_seq() + repeat_ops(count as nat, program_id),
            r.program_id() == old(self).program_id(),
            *final(self) == *final(r),
    {
        let mut remaining: u32 = 0;
        while remaining < count
            invariant
                remaining <= count,
                self.op_seq() == old(self).op_seq() + repeat_ops(remaining as nat, program_id),
                self.program_id() == old(self).program_id(),
            decreases count - remaining,
        {
            self.ops.push(Op::Spawn(program_id));
            self.ops.push(Op::JoinChildren);
            proof {
                assert(self.op_seq() =~= old(self).op_seq() + repeat_ops(
                    (remaining + 1) as nat,
                    program_id,
                ));
            }
            remaining = remaining + 1;
        }
        self
    }

    /// Appends spawn(left), spawn(right), join.
    pub fn sync_children(&mut self, left_program: ProgramId, right_program: ProgramId) -> (r:
        &mut Self)
        ensures
            r.op_seq() == old(self).op_seq() + sync_ops(left_program, right_program),
            r.program_id() == old(self).program_id(),
            *final(self) == *final(r),
    {
        self.ops.push(Op::Spawn(left_program));
        self.ops.push(Op::Spawn(right_program));
        self.ops.push(Op::JoinChildren);
        assert(self.op_seq() =~= old(self).op_seq() + sync_ops(left_program, right_program));
        self
    }

    pub fn join_children(&mut self) -> (r: &mut Self)
        ensures
            Self::appended(*old(self), *r, Op::JoinChildren),
            *final(self) == *final(r),
    {
        self.push(Op::JoinChildren)
    }

    pub fn join_any_children(&mut self) -> (r: &mut Self)
        ensures
            Self::appended(*old(self), *r, Op::JoinAnyChildren),
            *final(self) == *final(r),
    {
        self.push(Op::JoinAnyChildren)
    }

    pub fn race2(&mut self, left_program: ProgramId, right_program: ProgramId) -> (r: &mut Self)
        ensures
            Self::appended(*old(self), *r, Op::Race2(left_program, right_program)),
            *final(self) == *final(r),
    {
        self.push(Op::Race2(left_program, right_program))
    }

    /// Same op as `race2`.
    pub fn race_children(&mut self, left_program: ProgramId, right_program: ProgramId) -> (r:
        &mut Self)
        ensures
            Self::appended(*old(self), *r, Op::Race2(left_program, right_program)),
            *final(self) == *final(r),
    {
        self.race2(left_program, right_program)
    }

    pub fn succeed(&mut self) -> (r: &mut Self)
        ensures
            Self::appended(*old(self), *r, Op::Succeed),
            *final(self) == *final(r),
    {
        self.push(Op::Succeed)
    }

    pub fn fail(&mut self) -> (r: &mut Self)
        ensures
            Self::appended(*old(self), *r, Op::Fail),
            *final(self) == *final(r),
    {
        self.push(Op::Fail)
    }

    /// Borrows the program.
    pub fn as_program(&self) -> (program: Program<'_>)
        ensures
            program.id == self.program_id(),
            program.ops@ == self.op_seq(),
    {
        Program::new(self.id, self.ops.as_slice())
    }
}

/// Index of the first program in `programs[from..]` with the given id.
pub open spec fn find_program_from(programs: Seq<Program>, id: ProgramId, from: int) -> Option<
    int,
>
    decreases programs.len() - from,
{
    if from < 0 || from >= programs.len() {
        None
    } else if programs[from].id == id {
        Some(from)
    } else {
        find_program_from(programs, id, from + 1)
    }
}

/// Index of the first program with the given id.
pub open spec fn find_program(programs: Seq<Program>, id: ProgramId) -> Option<int> {
    find_program_from(programs, id, 0)
}

pub proof fn lemma_find_program_from(programs: Seq<Program>, id: ProgramId, from: int)
    requires
        0 <= from,
    ensures
        find_program_from(programs, id, from) matches Some(i) ==> from <= i < programs.len()
            && programs[i].id == id && forall|j: int| from <= j < i ==> programs[j].id != id,
        find_program_from(programs, id, from) is None ==> forall|j: int|
            from <= j < programs.len() ==> programs[j].id != id,
    decreases programs.len() - from,
{
    if from < programs.len() && programs[from].id != id {
        lemma_find_program_from(programs, id, from + 1);
    }
}

/// A borrowed list of programs, looked up by id (the first match wins).
#[derive(Clone, Copy, Debug)]
pub struct ProgramCatalog<'a> {
    programs: &'a [Program<'a>],
}

impl<'a> ProgramCatalog<'a> {
    /// The programs, in order.
    pub closed spec fn program_seq(self) -> Seq<Program<'a>> {
        self.programs@
    }

    pub fn new(programs: &'a [Program<'a>]) -> (catalog: Self)
        ensures
            catalog.program_seq() == programs@,
    {
        ProgramCatalog { programs }
    }

    /// The first program whose id is `id`.
    pub fn get(&self, id: ProgramId) -> (r: Option<&'a Program<'a>>)
        ensures
            match find_program(self.program_seq(), id) {
                Some(i) => r == Some(&self.program_seq()[i]),
                None => r is None,
            },
    {
        let mut index: usize = 0;
        while index < self.programs.len()
            invariant
                index <= self.programs@.len(),
                find_program(self.programs@, id) == find_program_from(
                    self.programs@,
                    id,
                    index as int,
                ),
            decreases self.programs@.len() - index,
        {
            if self.programs[index].id == id {
                return Some(&self.programs[index]);
            }
            index = index + 1;
        }
        None
    }

    pub fn programs(&self) -> (programs: &'a [Program<'a>])
        ensures
            programs@ == self.program_seq(),
    {
        self.programs
    }
}

} // verus!
