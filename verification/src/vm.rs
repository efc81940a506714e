//! The virtual machine and the interface that its instructions use.

use vstd::prelude::*;

use crate::vm_state::cell;
use crate::vm_state::data_merge_effect;
use crate::vm_state::fork_effect;
use crate::vm_state::lemma_record_one_more_write;
use crate::vm_state::record_writes;
use crate::vm_state::merge_frames_effect;
use crate::vm_state::switch_effect;
use crate::vm_state::DataBranch;
use crate::vm_state::set_effect;
use crate::vm_state::spec_pop;
use crate::vm_state::spec_push;
use crate::vm_state::DataStack;
use crate::vm_state::EvaluationStack;
use crate::vm_state::InternalError;
use crate::vm_state::PrimitiveOperations;
use crate::vm_state::RuntimeError;
use crate::vm_state::OperationCall;
use crate::vm_state::call_result;

verus! {

#[derive(Debug, Clone, Copy, PartialEq, Eq)]
pub struct Loop {
    pub first_instruction_index: usize,
    pub iterations_left: usize,
}

pub struct Branch<E> {
    pub condition: E,
    /// Whether the alternative has begun.
    pub is_full: bool,
}

pub enum Block<E> {
    Loop(Loop),
    Branch(Branch<E>),
}

/// The frame of a function call: its open blocks, where to return to, and
/// its part of the data stack.
pub struct FunctionFrame<E> {
    pub blocks: Vec<Block<E>>,
    pub return_address: usize,
    pub stack_frame_begin: usize,
    pub stack_frame_end: usize,
}

impl<E> FunctionFrame<E> {
    pub fn new(stack_frame_begin: usize, return_address: usize) -> (r: FunctionFrame<E>)
        ensures
            r.blocks@.len() == 0,
            r.return_address == return_address,
            r.stack_frame_begin == stack_frame_begin,
            r.stack_frame_end == stack_frame_begin,
    {
        FunctionFrame { blocks: Vec::new(), return_address, stack_frame_begin, stack_frame_end: stack_frame_begin }
    }
}

/// What a frame is, apart from its blocks.
pub struct FrameView<E> {
    pub blocks: Seq<Block<E>>,
    pub return_address: usize,
    pub stack_frame_begin: usize,
    pub stack_frame_end: usize,
}

impl<E> View for FunctionFrame<E> {
    type V = FrameView<E>;

    open spec fn view(&self) -> FrameView<E> {
        FrameView {
            blocks: self.blocks@,
            return_address: self.return_address,
            stack_frame_begin: self.stack_frame_begin,
            stack_frame_end: self.stack_frame_end,
        }
    }
}

pub open spec fn frames_view<E>(frames: Seq<FunctionFrame<E>>) -> Seq<FrameView<E>> {
    frames.map_values(|f: FunctionFrame<E>| f@)
}

pub struct State<E> {
    pub instruction_counter: usize,
    pub evaluation_stack: EvaluationStack<E>,
    pub data_stack: DataStack<E>,
    pub conditions_stack: Vec<E>,
    pub frames_stack: Vec<FunctionFrame<E>>,
}

pub struct VirtualMachine<E, O> {
    pub state: State<E>,
    pub operations: O,
    pub outputs: Vec<E>,
    /// The calls of the operations made so far, in order.
    pub calls: Ghost<Seq<OperationCall<E>>>,
}

/// The mathematical content of a machine: its state, and the calls of its
/// operations made so far.
pub struct MachineView<E> {
    pub instruction_counter: usize,
    pub evaluation: Seq<Seq<E>>,
    pub data_stack: DataStack<E>,
    pub conditions: Seq<E>,
    pub frames: Seq<FrameView<E>>,
    pub outputs: Seq<E>,
    pub calls: Seq<OperationCall<E>>,
}

impl<E, O> View for VirtualMachine<E, O> {
    type V = MachineView<E>;

    open spec fn view(&self) -> MachineView<E> {
        MachineView {
            instruction_counter: self.state.instruction_counter,
            evaluation: self.state.evaluation_stack@,
            data_stack: self.state.data_stack,
            conditions: self.state.conditions_stack@,
            frames: frames_view(self.state.frames_stack@),
            outputs: self.outputs@,
            calls: self.calls@,
        }
    }
}

/// Two machines agree on everything but the evaluation stack.
pub open spec fn same_but_evaluation<E>(a: MachineView<E>, b: MachineView<E>) -> bool {
    &&& a.instruction_counter == b.instruction_counter
    &&& a.data_stack.memory@ == b.data_stack.memory@
    &&& a.data_stack.branches@ == b.data_stack.branches@
    &&& a.conditions == b.conditions
    &&& a.frames == b.frames
    &&& a.outputs == b.outputs
    &&& a.calls == b.calls
}

/// Two machines agree on everything.
pub open spec fn same<E>(a: MachineView<E>, b: MachineView<E>) -> bool {
    &&& same_but_evaluation(a, b)
    &&& a.evaluation == b.evaluation
}

/// What putting `value` on the evaluation stack does.
pub open spec fn push_effect<E>(before: MachineView<E>, value: E, after: MachineView<E>, r: Result<(), RuntimeError>) -> bool {
    &&& same_but_evaluation(before, after)
    &&& before.evaluation.len() == 0 ==> r == Err::<(), RuntimeError>(
        RuntimeError::InternalError(InternalError::EvaluationRootMissing),
    ) && after.evaluation == before.evaluation
    &&& before.evaluation.len() > 0 ==> r is Ok && after.evaluation == spec_push(before.evaluation, value)
}

/// What taking the top value of the evaluation stack does.
pub open spec fn pop_effect<E>(before: MachineView<E>, after: MachineView<E>, r: Result<E, RuntimeError>) -> bool {
    &&& same_but_evaluation(before, after)
    &&& before.evaluation.len() == 0 ==> r == Err::<E, RuntimeError>(
        RuntimeError::InternalError(InternalError::EvaluationRootMissing),
    ) && after.evaluation == before.evaluation
    &&& before.evaluation.len() > 0 && before.evaluation.last().len() == 0 ==> r == Err::<E, RuntimeError>(
        RuntimeError::StackUnderflow,
    ) && after.evaluation == before.evaluation
    &&& before.evaluation.len() > 0 && before.evaluation.last().len() > 0 ==> r == Ok::<E, RuntimeError>(
        before.evaluation.last().last(),
    ) && after.evaluation == spec_pop(before.evaluation)
}

/// What reading the cell at `address` gives: a copy of its value.
pub open spec fn read_result<E: Clone>(memory: Seq<Option<E>>, address: int, r: Result<E, RuntimeError>) -> bool {
    match cell(memory, address) {
        Some(v) => r matches Ok(c) && cloned(v, c),
        None => r == Err::<E, RuntimeError>(RuntimeError::UninitializedStorageAccess),
    }
}

/// What loading the cell at `address` of the current frame gives.
pub open spec fn load_effect<E: Clone>(before: MachineView<E>, address: usize, after: MachineView<E>, r: Result<E, RuntimeError>) -> bool {
    &&& same(before, after)
    &&& before.frames.len() == 0 ==> r == Err::<E, RuntimeError>(
        RuntimeError::InternalError(InternalError::RootFrameMissing),
    )
    &&& before.frames.len() > 0 ==> read_result(
        before.data_stack.memory@,
        before.frames.last().stack_frame_begin + address,
        r,
    )
}

/// The current frame with its end moved past the cell at `address` of it.
pub open spec fn frame_after_store<E>(frame: FrameView<E>, address: usize) -> FrameView<E> {
    let reach = frame.stack_frame_begin + address + 1;
    FrameView {
        stack_frame_end: if frame.stack_frame_end >= reach {
            frame.stack_frame_end
        } else {
            reach as usize
        },
        ..frame
    }
}

/// What storing `value` in the cell at `address` of the current frame does.
pub open spec fn store_effect<E>(before: MachineView<E>, address: usize, value: E, after: MachineView<E>, r: Result<(), RuntimeError>) -> bool {
    &&& after.instruction_counter == before.instruction_counter
    &&& after.evaluation == before.evaluation
    &&& after.conditions == before.conditions
    &&& after.outputs == before.outputs
    &&& after.calls == before.calls
    &&& before.frames.len() == 0 ==> r == Err::<(), RuntimeError>(
        RuntimeError::InternalError(InternalError::RootFrameMissing),
    ) && same(before, after)
    &&& before.frames.len() > 0 ==> {
        &&& r is Ok
        &&& after.frames == before.frames.update(
            before.frames.len() - 1,
            frame_after_store(before.frames.last(), address),
        )
        &&& set_effect(
            before.data_stack,
            after.data_stack,
            (before.frames.last().stack_frame_begin + address) as usize,
            value,
        )
    }
}

/// The interface of the machine that instructions use.
pub trait InternalVM<E> {
    /// The machine can run: its data stack is well formed.
    spec fn well_formed(&self) -> bool;

    /// The cell at `address` of the current frame has an address that fits
    /// in a `usize`, with room for one more.
    spec fn can_address(&self, address: usize) -> bool;

    /// There is a current frame.
    spec fn has_frame(&self) -> bool;

    /// A call with `inputs_count` arguments keeps the addresses of the new
    /// frame in a `usize`.
    spec fn can_call(&self, inputs_count: usize) -> bool;

    fn push(&mut self, cell: E) -> Result<(), RuntimeError>;

    fn pop(&mut self) -> Result<E, RuntimeError>;

    fn load(&mut self, address: usize) -> Result<E, RuntimeError>
        requires
            old(self).can_address(address),
    ;

    fn load_global(&mut self, address: usize) -> Result<E, RuntimeError>;

    fn store(&mut self, address: usize, cell: E) -> (r: Result<(), RuntimeError>)
        requires
            old(self).well_formed(),
            old(self).can_address(address),
        ensures
            final(self).well_formed(),
    ;

    fn store_global(&mut self, address: usize, cell: E) -> (r: Result<(), RuntimeError>)
        requires
            old(self).well_formed(),
            address < usize::MAX,
        ensures
            final(self).well_formed(),
    ;

    fn loop_begin(&mut self, iterations: usize) -> Result<(), RuntimeError>
        requires
            old(self).has_frame() ==> iterations >= 1,
    ;

    fn loop_end(&mut self) -> Result<(), RuntimeError>
        requires
            old(self).has_frame(),
    ;

    fn call(&mut self, address: usize, inputs_count: usize) -> (r: Result<(), RuntimeError>)
        requires
            old(self).well_formed(),
            old(self).can_call(inputs_count),
        ensures
            final(self).well_formed(),
    ;

    fn ret(&mut self, outputs_count: usize) -> Result<(), RuntimeError>;

    fn branch_then(&mut self) -> (r: Result<(), RuntimeError>)
        requires
            old(self).well_formed(),
        ensures
            final(self).well_formed(),
    ;

    fn branch_else(&mut self) -> (r: Result<(), RuntimeError>)
        requires
            old(self).well_formed(),
        ensures
            final(self).well_formed(),
    ;

    fn branch_end(&mut self) -> (r: Result<(), RuntimeError>)
        requires
            old(self).well_formed(),
        ensures
            final(self).well_formed(),
    ;

    fn exit(&mut self, outputs_count: usize) -> Result<(), RuntimeError>;
}

impl<E: Clone, O: PrimitiveOperations<E>> VirtualMachine<E, O> {
    /// A machine at the first instruction, with one empty frame on each
    /// stack and `condition` as the condition of the code outside any
    /// conditional.
    pub fn new(operations: O, condition: E) -> (r: VirtualMachine<E, O>)
        ensures
            r@.instruction_counter == 0,
            r@.evaluation == seq![Seq::<E>::empty()],
            r@.data_stack.memory@ == Seq::<Option<E>>::empty(),
            r@.data_stack.branches@ == Seq::<DataBranch<E>>::empty(),
            r@.conditions == seq![condition],
            r@.frames.len() == 1,
            r@.frames[0] == (FrameView::<E> {
                blocks: Seq::empty(),
                return_address: 0,
                stack_frame_begin: 0,
                stack_frame_end: 0,
            }),
            r@.outputs == Seq::<E>::empty(),
            r@.calls == Seq::<OperationCall<E>>::empty(),
            r.operations == operations,
            r.well_formed(),
    {
        let mut conditions_stack = Vec::new();
        conditions_stack.push(condition);
        let mut frames_stack = Vec::new();
        frames_stack.push(FunctionFrame::new(0, 0));
        let r = VirtualMachine {
            state: State {
                instruction_counter: 0,
                evaluation_stack: EvaluationStack::new(),
                data_stack: DataStack::new(),
                conditions_stack,
                frames_stack,
            },
            operations,
            outputs: Vec::new(),
            calls: Ghost(Seq::empty()),
        };
        proof {
            assert(r@.conditions =~= seq![condition]);
            assert(r@.frames[0].blocks =~= Seq::<Block<E>>::empty());
        }
        r
    }

    /// In passing to the alternative of a conditional with `condition`:
    /// takes the condition in force in the consequence off the conditions
    /// stack and gives the conjunction of the condition in force before the
    /// conditional with the negation of `condition`.
    fn conjunction_for_alternative(&mut self, condition: &E) -> (r: Result<E, RuntimeError>)
        ensures
            final(self).state.evaluation_stack == old(self).state.evaluation_stack,
            final(self).state.data_stack == old(self).state.data_stack,
            final(self).state.frames_stack == old(self).state.frames_stack,
            final(self).state.instruction_counter == old(self).state.instruction_counter,
            final(self).outputs == old(self).outputs,
            final(self)@.conditions == if old(self)@.conditions.len() == 0 {
                old(self)@.conditions
            } else {
                old(self)@.conditions.drop_last()
            },
            old(self)@.conditions.len() < 2 ==> r == Err::<E, RuntimeError>(
                RuntimeError::InternalError(InternalError::ConditionsRootMissing),
            ) && final(self)@.calls == old(self)@.calls,
            old(self)@.conditions.len() >= 2 ==> alternative_condition_calls::<E, O>(
                old(self)@.calls,
                *condition,
                old(self)@.conditions[old(self)@.conditions.len() - 2],
                final(self)@.calls,
                r,
            ),
    {
        if self.state.conditions_stack.pop().is_none() {
            return Err(RuntimeError::InternalError(InternalError::ConditionsRootMissing));
        }
        proof {
            assert(self@.conditions =~= old(self)@.conditions.drop_last());
        }
        let n = self.state.conditions_stack.len();
        if n == 0 {
            return Err(RuntimeError::InternalError(InternalError::ConditionsRootMissing));
        }
        let negated = self.operations.not(condition);
        self.calls = Ghost(self.calls@.push(OperationCall::Not { value: *condition, result: negated }));
        let negation = match negated {
            Ok(negation) => negation,
            Err(e) => {
                proof {
                    assert(self@.calls.take(old(self)@.calls.len() as int) =~= old(self)@.calls);
                }
                return Err(e);
            },
        };
        let r = self.operations.and(&self.state.conditions_stack[n - 1], &negation);
        self.calls = Ghost(
            self.calls@.push(OperationCall::And { left: self.state.conditions_stack@[n - 1], right: negation, result: r }),
        );
        proof {
            assert(self@.calls.take(old(self)@.calls.len() as int) =~= old(self)@.calls);
        }
        r
    }

    /// Opens a conditional with `condition`, with `conjunction` the
    /// condition in force inside its consequence.
    pub fn open_conditional(&mut self, condition: E, conjunction: E) -> (r: Result<(), RuntimeError>)
        requires
            old(self).well_formed(),
        ensures
            final(self).well_formed(),
            final(self).operations == old(self).operations,
            open_conditional_effect(old(self)@, condition, conjunction, final(self)@, r),
    {
        self.state.conditions_stack.push(conjunction);
        let mut frame = match self.state.frames_stack.pop() {
            Some(frame) => frame,
            None => {
                return Err(RuntimeError::InternalError(InternalError::RootFrameMissing));
            },
        };
        frame.blocks.push(Block::Branch(Branch { condition, is_full: false }));
        self.state.frames_stack.push(frame);
        proof {
            assert(frames_view(self.state.frames_stack@) =~= with_top_blocks(
                frames_view(old(self).state.frames_stack@),
                frame.blocks@,
            ));
        }
        self.state.evaluation_stack.fork();
        self.state.data_stack.fork();
        Ok(())
    }

    /// Passes to the alternative of the innermost conditional, with
    /// `conjunction` the condition in force inside the alternative.
    pub fn enter_alternative(&mut self, conjunction: E) -> (r: Result<(), RuntimeError>)
        requires
            old(self).well_formed(),
        ensures
            final(self).well_formed(),
            final(self).operations == old(self).operations,
            enter_alternative_effect(old(self)@, conjunction, final(self)@, r),
    {
        self.state.conditions_stack.push(conjunction);
        self.state.data_stack.switch_branch()?;
        self.state.evaluation_stack.fork();
        Ok(())
    }
}

impl<E: Clone, O: PrimitiveOperations<E>> InternalVM<E> for VirtualMachine<E, O> {
    open spec fn well_formed(&self) -> bool {
        self.state.data_stack.wf()
    }

    open spec fn can_address(&self, address: usize) -> bool {
        self.state.frames_stack@.len() > 0 ==> self.state.frames_stack@.last().stack_frame_begin + address < usize::MAX
    }

    open spec fn has_frame(&self) -> bool {
        self.state.frames_stack@.len() > 0
    }

    open spec fn can_call(&self, inputs_count: usize) -> bool {
        self.state.frames_stack@.len() > 0 ==> self.state.frames_stack@.last().stack_frame_end + inputs_count <= usize::MAX
    }

    fn push(&mut self, cell: E) -> (r: Result<(), RuntimeError>)
        ensures
            push_effect(old(self)@, cell, final(self)@, r),
            final(self).state.data_stack == old(self).state.data_stack,
            final(self).operations == old(self).operations,
    {
        self.state.evaluation_stack.push(cell)
    }

    fn pop(&mut self) -> (r: Result<E, RuntimeError>)
        ensures
            pop_effect(old(self)@, final(self)@, r),
            final(self).state.data_stack == old(self).state.data_stack,
            final(self).operations == old(self).operations,
    {
        self.state.evaluation_stack.pop()
    }

    fn load(&mut self, address: usize) -> (r: Result<E, RuntimeError>)
        ensures
            load_effect(old(self)@, address, final(self)@, r),
            final(self).operations == old(self).operations,
    {
        let n = self.state.frames_stack.len();
        if n == 0 {
            return Err(RuntimeError::InternalError(InternalError::RootFrameMissing));
        }
        let offset = self.state.frames_stack[n - 1].stack_frame_begin;
        self.state.data_stack.get(offset + address)
    }

    fn load_global(&mut self, address: usize) -> (r: Result<E, RuntimeError>)
        ensures
            same(old(self)@, final(self)@),
            read_result(old(self)@.data_stack.memory@, address as int, r),
            final(self).operations == old(self).operations,
    {
        self.state.data_stack.get(address)
    }

    fn store(&mut self, address: usize, cell: E) -> (r: Result<(), RuntimeError>)
        ensures
            store_effect(old(self)@, address, cell, final(self)@, r),
            final(self).operations == old(self).operations,
    {
        let mut frame = match self.state.frames_stack.pop() {
            Some(frame) => frame,
            None => {
                return Err(RuntimeError::InternalError(InternalError::RootFrameMissing));
            },
        };
        let reach = frame.stack_frame_begin + address + 1;
        if frame.stack_frame_end < reach {
            frame.stack_frame_end = reach;
        }
        let offset = frame.stack_frame_begin;
        self.state.frames_stack.push(frame);
        proof {
            assert(frames_view(self.state.frames_stack@) =~= frames_view(old(self).state.frames_stack@).update(
                old(self).state.frames_stack@.len() - 1,
                frame_after_store(frames_view(old(self).state.frames_stack@).last(), address),
            ));
        }
        self.state.data_stack.set(offset + address, cell);
        Ok(())
    }

    fn store_global(&mut self, address: usize, cell: E) -> (r: Result<(), RuntimeError>)
        ensures
            r is Ok,
            final(self)@.instruction_counter == old(self)@.instruction_counter,
            final(self)@.evaluation == old(self)@.evaluation,
            final(self)@.conditions == old(self)@.conditions,
            final(self)@.frames == old(self)@.frames,
            final(self)@.outputs == old(self)@.outputs,
            final(self)@.calls == old(self)@.calls,
            set_effect(old(self)@.data_stack, final(self)@.data_stack, address, cell),
            final(self).operations == old(self).operations,
    {
        self.state.data_stack.set(address, cell);
        Ok(())
    }

    fn loop_begin(&mut self, iterations: usize) -> (r: Result<(), RuntimeError>)
        ensures
            loop_begin_effect(old(self)@, iterations, final(self)@, r),
            final(self).operations == old(self).operations,
    {
        let mut frame = match self.state.frames_stack.pop() {
            Some(frame) => frame,
            None => {
                return Err(RuntimeError::InternalError(InternalError::RootFrameMissing));
            },
        };
        frame.blocks.push(
            Block::Loop(Loop { first_instruction_index: self.state.instruction_counter, iterations_left: iterations - 1 }),
        );
        self.state.frames_stack.push(frame);
        proof {
            assert(frames_view(self.state.frames_stack@) =~= with_top_blocks(
                frames_view(old(self).state.frames_stack@),
                frame.blocks@,
            ));
        }
        Ok(())
    }

    fn loop_end(&mut self) -> (r: Result<(), RuntimeError>)
        ensures
            loop_end_effect(old(self)@, final(self)@, r),
            final(self).operations == old(self).operations,
    {
        let mut frame = self.state.frames_stack.pop().unwrap();
        let ghost blocks = frame.blocks@;
        let result = match frame.blocks.pop() {
            Some(Block::Loop(loop_block)) => {
                if loop_block.iterations_left != 0 {
                    self.state.instruction_counter = loop_block.first_instruction_index;
                    frame.blocks.push(
                        Block::Loop(Loop { iterations_left: loop_block.iterations_left - 1, ..loop_block }),
                    );
                }
                Ok(())
            },
            _ => Err(RuntimeError::UnexpectedLoopEnd),
        };
        self.state.frames_stack.push(frame);
        proof {
            assert(frames_view(self.state.frames_stack@) =~= with_top_blocks(
                frames_view(old(self).state.frames_stack@),
                frame.blocks@,
            ));
            if blocks.len() > 0 {
                assert(blocks.drop_last() =~= blocks.subrange(0, blocks.len() - 1));
            }
        }
        result
    }

    #[verifier::loop_isolation(false)]
    fn call(&mut self, address: usize, inputs_count: usize) -> (r: Result<(), RuntimeError>)
        ensures
            call_effect(old(self)@, address, inputs_count, final(self)@, r),
            final(self).operations == old(self).operations,
    {
        let n = self.state.frames_stack.len();
        if n == 0 {
            return Err(RuntimeError::InternalError(InternalError::RootFrameMissing));
        }
        let offset = self.state.frames_stack[n - 1].stack_frame_end;
        let return_address = self.state.instruction_counter;
        let frame = FunctionFrame::new(offset, return_address);
        proof {
            assert(frame.blocks@ =~= Seq::<Block<E>>::empty());
        }
        self.state.frames_stack.push(frame);
        let ghost start = old(self)@;
        let ghost top = start.evaluation.last();
        proof {
            assert(self@.frames =~= start.frames.push(
                FrameView {
                    blocks: Seq::empty(),
                    return_address: start.instruction_counter,
                    stack_frame_begin: offset,
                    stack_frame_end: offset,
                },
            ));
            if start.evaluation.len() > 0 {
                assert(top.take(top.len() as int) =~= top);
                assert(start.evaluation.update(start.evaluation.len() - 1, top) =~= start.evaluation);
            }
        }
        let mut i: usize = 0;
        while i < inputs_count
            invariant
                self.calls == old(self).calls,
                self.well_formed(),
                self.operations == old(self).operations,
                offset + inputs_count <= usize::MAX,
                i <= inputs_count,
                start.evaluation.len() > 0 ==> i <= top.len(),
                start.evaluation.len() == 0 ==> i == 0,
                self@.instruction_counter == start.instruction_counter,
                self@.conditions == start.conditions,
                self@.outputs == start.outputs,
                self@.frames == start.frames.push(
                    FrameView {
                        blocks: Seq::empty(),
                        return_address: start.instruction_counter,
                        stack_frame_begin: offset,
                        stack_frame_end: (offset + i) as usize,
                    },
                ),
                forall|a: int| #[trigger] cell(self@.data_stack.memory@, a) == if offset <= a < offset + i {
                    Some(top[top.len() - 1 - (a - offset)])
                } else {
                    cell(start.data_stack.memory@, a)
                },
                record_writes(start.data_stack, self@.data_stack, |a: int| offset <= a < offset + i),
                start.evaluation.len() == 0 ==> self@.evaluation == start.evaluation,
                start.evaluation.len() > 0 ==> self@.evaluation == start.evaluation.update(
                    start.evaluation.len() - 1,
                    top.take(top.len() - i),
                ),
            decreases inputs_count - i,
        {
            let ghost before = self@;
            let arg = match self.pop() {
                Ok(arg) => arg,
                Err(e) => {
                    proof {
                        assert(available(start.evaluation, inputs_count) == i);
                    }
                    return Err(e);
                },
            };
            proof {
                assert(top.take(top.len() - i).last() == top[top.len() - 1 - i]);
                assert(top.take(top.len() - i).drop_last() =~= top.take(top.len() - (i + 1)));
            }
            let ghost middle = self@;
            proof {
                assert(self@.frames.last() == self.state.frames_stack@.last()@);
            }
            self.store(i, arg)?;
            proof {
                lemma_record_one_more_write(
                    start.data_stack,
                    middle.data_stack,
                    |a: int| offset <= a < offset + i,
                    (offset + i) as usize,
                    arg,
                    self@.data_stack,
                );
                assert((|a: int| (offset <= a < offset + i) || a == (offset + i) as usize) =~= (|a: int| offset <= a
                    < offset + (i + 1)));
                assert forall|a: int| #[trigger] cell(self@.data_stack.memory@, a) == if offset <= a < offset + i + 1 {
                    Some(top[top.len() - 1 - (a - offset)])
                } else {
                    cell(start.data_stack.memory@, a)
                } by {
                    assert(cell(middle.data_stack.memory@, a) == cell(before.data_stack.memory@, a));
                }
                assert(self@.frames =~= start.frames.push(
                    FrameView {
                        blocks: Seq::empty(),
                        return_address: start.instruction_counter,
                        stack_frame_begin: offset,
                        stack_frame_end: (offset + i + 1) as usize,
                    },
                ));
                assert(self@.evaluation =~= start.evaluation.update(
                    start.evaluation.len() - 1,
                    top.take(top.len() - (i + 1)),
                ));
            }
            i = i + 1;
        }
        self.state.instruction_counter = address;
        Ok(())
    }

    fn branch_then(&mut self) -> (r: Result<(), RuntimeError>)
        ensures
            branch_then_effect::<E, O>(old(self)@, final(self)@, r),
    {
        let condition = self.pop()?;
        let n = self.state.conditions_stack.len();
        if n == 0 {
            return Err(RuntimeError::InternalError(InternalError::ConditionsRootMissing));
        }
        let result = self.operations.and(&condition, &self.state.conditions_stack[n - 1]);
        self.calls = Ghost(
            self.calls@.push(OperationCall::And { left: condition, right: self.state.conditions_stack@[n - 1], result }),
        );
        proof {
            assert(self@.calls.drop_last() =~= old(self)@.calls);
        }
        let conjunction = match result {
            Ok(conjunction) => conjunction,
            Err(e) => {
                return Err(e);
            },
        };
        let ghost middle = self@;
        let ghost kept = condition;
        proof {
            assert(middle == MachineView {
                evaluation: spec_pop(old(self)@.evaluation),
                calls: middle.calls,
                ..old(self)@
            });
        }
        let r = self.open_conditional(condition, conjunction);
        proof {
            assert(open_conditional_effect(middle, kept, conjunction, self@, r));
        }
        r
    }

    fn branch_else(&mut self) -> (r: Result<(), RuntimeError>)
        ensures
            branch_else_effect::<E, O>(old(self)@, final(self)@, r),
    {
        let mut frame = match self.state.frames_stack.pop() {
            Some(frame) => frame,
            None => {
                return Err(RuntimeError::InternalError(InternalError::RootFrameMissing));
            },
        };
        let ghost blocks = frame.blocks@;
        let mut branch = match frame.blocks.pop() {
            Some(Block::Branch(branch)) => branch,
            _ => {
                self.state.frames_stack.push(frame);
                proof {
                    assert(frames_view(self.state.frames_stack@) =~= with_top_blocks(
                        frames_view(old(self).state.frames_stack@),
                        if blocks.len() > 0 { blocks.drop_last() } else { blocks },
                    ));
                }
                return Err(RuntimeError::UnexpectedElse);
            },
        };
        if branch.is_full {
            self.state.frames_stack.push(frame);
            proof {
                assert(frames_view(self.state.frames_stack@) =~= with_top_blocks(
                    frames_view(old(self).state.frames_stack@),
                    blocks.drop_last(),
                ));
            }
            return Err(RuntimeError::UnexpectedElse);
        }
        branch.is_full = true;
        let ghost marked = with_top_blocks(
            frames_view(old(self).state.frames_stack@),
            blocks.drop_last().push(Block::Branch(Branch { condition: branch.condition, is_full: true })),
        );
        let conjunction = self.conjunction_for_alternative(&branch.condition);
        frame.blocks.push(Block::Branch(branch));
        self.state.frames_stack.push(frame);
        proof {
            assert(frames_view(self.state.frames_stack@) =~= marked);
        }
        let ghost result = conjunction;
        proof {
            if old(self)@.conditions.len() >= 2 {
                assert(alternative_condition_calls::<E, O>(
                    old(self)@.calls,
                    branch.condition,
                    old(self)@.conditions[old(self)@.conditions.len() - 2],
                    self@.calls,
                    result,
                ));
            }
        }
        let conjunction = match conjunction {
            Ok(conjunction) => conjunction,
            Err(e) => {
                return Err(e);
            },
        };
        let ghost middle = self@;
        let r = self.enter_alternative(conjunction);
        proof {
            assert(enter_alternative_effect(middle, conjunction, self@, r));
        }
        r
    }

    fn branch_end(&mut self) -> (r: Result<(), RuntimeError>)
        ensures
            branch_end_effect::<E, O>(old(self)@, final(self)@, r),
    {
        proof {
            assert(self@.calls.take(self@.calls.len() as int) =~= self@.calls);
            assert(self@.calls.skip(self@.calls.len() as int) =~= Seq::<OperationCall<E>>::empty());
        }
        if self.state.conditions_stack.pop().is_none() {
            return Err(RuntimeError::InternalError(InternalError::ConditionsRootMissing));
        }
        proof {
            assert(self@.conditions =~= old(self)@.conditions.drop_last());
        }
        let mut frame = match self.state.frames_stack.pop() {
            Some(frame) => frame,
            None => {
                return Err(RuntimeError::InternalError(InternalError::RootFrameMissing));
            },
        };
        let ghost blocks = frame.blocks@;
        let popped = frame.blocks.pop();
        self.state.frames_stack.push(frame);
        proof {
            assert(frames_view(self.state.frames_stack@) =~= with_top_blocks(
                frames_view(old(self).state.frames_stack@),
                if blocks.len() > 0 { blocks.drop_last() } else { blocks },
            ));
        }
        let branch = match popped {
            Some(Block::Branch(branch)) => branch,
            _ => {
                return Err(RuntimeError::UnexpectedEndIf);
            },
        };
        let ghost c0 = self.calls@;
        let joined = if branch.is_full {
            self.state.evaluation_stack.merge(&branch.condition, &mut self.operations, &mut self.calls)
        } else {
            self.state.evaluation_stack.revert()
        };
        let ghost c1 = self.calls@;
        match joined {
            Ok(()) => {},
            Err(e) => {
                return Err(e);
            },
        }
        let r = self.state.data_stack.merge(&branch.condition, &mut self.operations, &mut self.calls);
        proof {
            let made = self.calls@.skip(c0.len() as int);
            let k = c1.len() - c0.len();
            assert(self.calls@.take(c1.len() as int) == c1);
            assert(self.calls@.take(c0.len() as int) =~= c0);
            assert(made.take(k) =~= c1.skip(c0.len() as int));
            assert(made.skip(k) =~= self.calls@.skip(c1.len() as int));
            assert(data_merge_effect::<E, O>(
                old(self)@.data_stack,
                branch.condition,
                self@.data_stack,
                r,
                made.skip(k),
            ));
            if branch.is_full {
                assert(merge_frames_effect::<E, O>(
                    old(self)@.evaluation,
                    branch.condition,
                    self@.evaluation,
                    Ok(()),
                    made.take(k),
                ));
                assert(k == old(self)@.evaluation.last().len());
            } else {
                assert(made.skip(k) == made);
            }
        }
        r
    }

    #[verifier::loop_isolation(false)]
    fn ret(&mut self, outputs_count: usize) -> (r: Result<(), RuntimeError>)
        ensures
            ret_effect(old(self)@, outputs_count, final(self)@, r),
            final(self).operations == old(self).operations,
    {
        let ghost start = old(self)@;
        let ghost top = start.evaluation.last();
        proof {
            if start.evaluation.len() > 0 {
                assert(top.take(top.len() as int) =~= top);
                assert(start.evaluation.update(start.evaluation.len() - 1, top) =~= start.evaluation);
            }
        }
        let mut outputs: Vec<E> = Vec::new();
        let mut i: usize = 0;
        while i < outputs_count
            invariant
                self.calls == old(self).calls,
                self.operations == old(self).operations,
                i <= outputs_count,
                start.evaluation.len() > 0 ==> i <= top.len(),
                start.evaluation.len() == 0 ==> i == 0,
                same_but_evaluation(start, self@),
                outputs@.len() == i,
                forall|j: int| 0 <= j < i ==> #[trigger] outputs@[j] == top[top.len() - 1 - j],
                start.evaluation.len() == 0 ==> self@.evaluation == start.evaluation,
                start.evaluation.len() > 0 ==> self@.evaluation == start.evaluation.update(
                    start.evaluation.len() - 1,
                    top.take(top.len() - i),
                ),
            decreases outputs_count - i,
        {
            let output = match self.pop() {
                Ok(output) => output,
                Err(e) => {
                    proof {
                        if start.evaluation.len() > 0 {
                            assert(top.take(top.len() - i) =~= Seq::<E>::empty());
                        }
                    }
                    return Err(e);
                },
            };
            proof {
                assert(top.take(top.len() - i).drop_last() =~= top.take(top.len() - (i + 1)));
            }
            outputs.push(output);
            i = i + 1;
            proof {
                assert(self@.evaluation =~= start.evaluation.update(
                    start.evaluation.len() - 1,
                    top.take(top.len() - i),
                ));
            }
        }
        let frame = match self.state.frames_stack.pop() {
            Some(frame) => frame,
            None => {
                proof {
                    if start.evaluation.len() > 0 && outputs_count == 0 {
                        assert(top.take(top.len() as int) =~= top);
                        assert(start.evaluation.update(start.evaluation.len() - 1, top) =~= start.evaluation);
                    }
                }
                return Err(RuntimeError::StackUnderflow);
            },
        };
        self.state.instruction_counter = frame.return_address;
        proof {
            assert(frames_view(self.state.frames_stack@) =~= start.frames.drop_last());
        }
        while outputs.len() > 0
            invariant
                self.calls == old(self).calls,
                self.operations == old(self).operations,
                i == outputs_count,
                start.evaluation.len() > 0 ==> i <= top.len(),
                start.evaluation.len() == 0 ==> i == 0,
                start.frames.len() > 0,
                self@.instruction_counter == start.frames.last().return_address,
                self@.frames == start.frames.drop_last(),
                self@.data_stack.memory@ == start.data_stack.memory@,
                self@.data_stack.branches@ == start.data_stack.branches@,
                self@.conditions == start.conditions,
                self@.outputs == start.outputs,
                outputs@.len() <= i,
                forall|j: int| 0 <= j < outputs@.len() ==> #[trigger] outputs@[j] == top[top.len() - 1 - j],
                start.evaluation.len() == 0 ==> self@.evaluation == start.evaluation,
                start.evaluation.len() > 0 ==> self@.evaluation == start.evaluation.update(
                    start.evaluation.len() - 1,
                    top.take(top.len() - outputs@.len()),
                ),
            decreases outputs.len(),
        {
            let output = outputs.pop().unwrap();
            self.push(output)?;
            proof {
                assert(top.take(top.len() - outputs@.len() - 1).push(output) =~= top.take(top.len() - outputs@.len()));
                assert(self@.evaluation =~= start.evaluation.update(
                    start.evaluation.len() - 1,
                    top.take(top.len() - outputs@.len()),
                ));
            }
        }
        proof {
            if start.evaluation.len() > 0 {
                assert(top.take(top.len() as int) =~= top);
                assert(start.evaluation.update(start.evaluation.len() - 1, top) =~= start.evaluation);
            }
        }
        Ok(())
    }

    #[verifier::loop_isolation(false)]
    fn exit(&mut self, outputs_count: usize) -> (r: Result<(), RuntimeError>)
        ensures
            exit_effect(old(self)@, outputs_count, final(self)@, r),
            final(self).operations == old(self).operations,
    {
        let ghost start = old(self)@;
        let ghost top = start.evaluation.last();
        proof {
            if start.evaluation.len() > 0 {
                assert(top.take(top.len() as int) =~= top);
                assert(start.evaluation.update(start.evaluation.len() - 1, top) =~= start.evaluation);
            }
        }
        let mut i: usize = 0;
        while i < outputs_count
            invariant
                self.calls == old(self).calls,
                self.operations == old(self).operations,
                i <= outputs_count,
                start.evaluation.len() > 0 ==> i <= top.len(),
                start.evaluation.len() == 0 ==> i == 0,
                self@.instruction_counter == start.instruction_counter,
                self@.data_stack.memory@ == start.data_stack.memory@,
                self@.data_stack.branches@ == start.data_stack.branches@,
                self@.conditions == start.conditions,
                self@.frames == start.frames,
                self@.outputs.len() == start.outputs.len() + i,
                self@.outputs.take(start.outputs.len() as int) == start.outputs,
                forall|j: int| 0 <= j < i ==> #[trigger] self@.outputs[start.outputs.len() + j] == top[top.len() - 1 - j],
                start.evaluation.len() == 0 ==> self@.evaluation == start.evaluation,
                start.evaluation.len() > 0 ==> self@.evaluation == start.evaluation.update(
                    start.evaluation.len() - 1,
                    top.take(top.len() - i),
                ),
            decreases outputs_count - i,
        {
            let value = match self.pop() {
                Ok(value) => value,
                Err(e) => {
                    proof {
                        assert(available(start.evaluation, outputs_count) == i);
                        assert forall|k: int| start.outputs.len() <= k < self@.outputs.len() implies self@.outputs[k]
                            == (start.outputs + taken(start.evaluation, outputs_count))[k] by {
                            assert(self@.outputs[start.outputs.len() + (k - start.outputs.len())] == top[top.len() - 1 - (k
                                - start.outputs.len())]);
                        }
                        assert(self@.outputs =~= start.outputs + taken(start.evaluation, outputs_count));
                    }
                    return Err(e);
                },
            };
            proof {
                assert(top.take(top.len() - i).drop_last() =~= top.take(top.len() - (i + 1)));
            }
            self.outputs.push(value);
            i = i + 1;
            proof {
                assert(self@.outputs.take(start.outputs.len() as int) =~= start.outputs);
                assert(self@.evaluation =~= start.evaluation.update(
                    start.evaluation.len() - 1,
                    top.take(top.len() - i),
                ));
            }
        }
        proof {
            assert(available(start.evaluation, outputs_count) == outputs_count);
            assert forall|k: int| start.outputs.len() <= k < self@.outputs.len() implies self@.outputs[k]
                == (start.outputs + taken(start.evaluation, outputs_count))[k] by {
                assert(self@.outputs[start.outputs.len() + (k - start.outputs.len())] == top[top.len() - 1 - (k
                    - start.outputs.len())]);
            }
            assert(self@.outputs =~= start.outputs + taken(start.evaluation, outputs_count));
        }
        let mut reversed: Vec<E> = Vec::new();
        let mut outputs: Vec<E> = Vec::new();
        core::mem::swap(&mut outputs, &mut self.outputs);
        let ghost forward = outputs@;
        while outputs.len() > 0
            invariant
                self.calls == old(self).calls,
                reversed@.len() + outputs@.len() == forward.len(),
                outputs@ == forward.take(outputs@.len() as int),
                forall|j: int| 0 <= j < reversed@.len() ==> #[trigger] reversed@[j] == forward[forward.len() - 1 - j],
            decreases outputs.len(),
        {
            let value = outputs.pop().unwrap();
            reversed.push(value);
            proof {
                assert(outputs@ =~= forward.take(outputs@.len() as int));
            }
        }
        self.outputs = reversed;
        self.state.instruction_counter = usize::MAX;
        proof {
            assert(self@.outputs =~= forward.reverse());
        }
        Ok(())
    }
}


/// The frames with the blocks of the current frame replaced.
pub open spec fn with_top_blocks<E>(frames: Seq<FrameView<E>>, blocks: Seq<Block<E>>) -> Seq<FrameView<E>> {
    frames.update(frames.len() - 1, FrameView { blocks, ..frames.last() })
}

/// What opening a loop of `iterations` iterations does.
pub open spec fn loop_begin_effect<E>(before: MachineView<E>, iterations: usize, after: MachineView<E>, r: Result<(), RuntimeError>) -> bool {
    &&& after.instruction_counter == before.instruction_counter
    &&& after.evaluation == before.evaluation
    &&& after.data_stack.memory@ == before.data_stack.memory@
    &&& after.data_stack.branches@ == before.data_stack.branches@
    &&& after.conditions == before.conditions
    &&& after.outputs == before.outputs
    &&& after.calls == before.calls
    &&& before.frames.len() == 0 ==> r == Err::<(), RuntimeError>(
        RuntimeError::InternalError(InternalError::RootFrameMissing),
    ) && after.frames == before.frames
    &&& before.frames.len() > 0 ==> r is Ok && after.frames == with_top_blocks(
        before.frames,
        before.frames.last().blocks.push(
            Block::Loop(Loop { first_instruction_index: before.instruction_counter, iterations_left: (iterations - 1) as usize }),
        ),
    )
}

/// What closing an iteration of the innermost loop does: while iterations
/// are left, one fewer is left and the machine goes back to the first
/// instruction of the loop; after the last one the loop is closed.
pub open spec fn loop_end_effect<E>(before: MachineView<E>, after: MachineView<E>, r: Result<(), RuntimeError>) -> bool {
    let blocks = before.frames.last().blocks;
    &&& after.evaluation == before.evaluation
    &&& after.data_stack.memory@ == before.data_stack.memory@
    &&& after.data_stack.branches@ == before.data_stack.branches@
    &&& after.conditions == before.conditions
    &&& after.outputs == before.outputs
    &&& after.calls == before.calls
    &&& match if blocks.len() > 0 { Some(blocks.last()) } else { None } {
        Some(Block::Loop(l)) => {
            &&& r is Ok
            &&& l.iterations_left != 0 ==> after.instruction_counter == l.first_instruction_index
                && after.frames == with_top_blocks(
                before.frames,
                blocks.drop_last().push(
                    Block::Loop(Loop { iterations_left: (l.iterations_left - 1) as usize, ..l }),
                ),
            )
            &&& l.iterations_left == 0 ==> after.instruction_counter == before.instruction_counter
                && after.frames == with_top_blocks(before.frames, blocks.drop_last())
        },
        _ => {
            &&& r == Err::<(), RuntimeError>(RuntimeError::UnexpectedLoopEnd)
            &&& after.instruction_counter == before.instruction_counter
            &&& after.frames == with_top_blocks(before.frames, if blocks.len() > 0 { blocks.drop_last() } else { blocks })
        },
    }
}

/// How many values a call with `inputs_count` arguments takes from the
/// evaluation stack: all it asks for, or as many as there are.
pub open spec fn available<E>(evaluation: Seq<Seq<E>>, count: usize) -> nat {
    if evaluation.len() == 0 {
        0
    } else if evaluation.last().len() < count {
        evaluation.last().len()
    } else {
        count as nat
    }
}

/// What calling the function at `address` with `inputs_count` arguments
/// does: a new frame starts where the current one ends and returns to the
/// current instruction; the arguments leave the evaluation stack, the first
/// taken (the top one) into the first cell of the new frame, and so on; the
/// machine goes to `address`. The call fails where there are too few
/// values, after moving those there are.
pub open spec fn call_effect<E>(before: MachineView<E>, address: usize, inputs_count: usize, after: MachineView<E>, r: Result<(), RuntimeError>) -> bool {
    &&& after.conditions == before.conditions
    &&& after.outputs == before.outputs
    &&& after.calls == before.calls
    &&& before.frames.len() == 0 ==> r == Err::<(), RuntimeError>(
        RuntimeError::InternalError(InternalError::RootFrameMissing),
    ) && same(before, after)
    &&& before.frames.len() > 0 ==> {
        let offset = before.frames.last().stack_frame_end;
        let moved = available(before.evaluation, inputs_count);
        let top = before.evaluation.last();
        &&& after.frames == before.frames.push(
            FrameView {
                blocks: Seq::empty(),
                return_address: before.instruction_counter,
                stack_frame_begin: offset,
                stack_frame_end: (offset + moved) as usize,
            },
        )
        &&& forall|a: int| #[trigger] cell(after.data_stack.memory@, a) == if offset <= a < offset + moved {
            Some(top[top.len() - 1 - (a - offset)])
        } else {
            cell(before.data_stack.memory@, a)
        }
        &&& record_writes(before.data_stack, after.data_stack, |a: int| offset <= a < offset + moved)
        &&& before.evaluation.len() == 0 ==> after.evaluation == before.evaluation
        &&& before.evaluation.len() > 0 ==> after.evaluation == before.evaluation.update(
            before.evaluation.len() - 1,
            top.take(top.len() - moved),
        )
        &&& before.evaluation.len() == 0 && inputs_count > 0 ==> r == Err::<(), RuntimeError>(
            RuntimeError::InternalError(InternalError::EvaluationRootMissing),
        )
        &&& before.evaluation.len() > 0 && moved < inputs_count ==> r == Err::<(), RuntimeError>(
            RuntimeError::StackUnderflow,
        )
        &&& moved == inputs_count ==> r is Ok
        &&& r is Ok ==> after.instruction_counter == address
        &&& r is Err ==> after.instruction_counter == before.instruction_counter
    }
}

/// What returning from the current function with `outputs_count` results
/// does: the results stay on the evaluation stack, in order; the frame of the
/// function is closed and the machine goes back to where it was called. It
/// fails where there are too few results (which are then lost) or no frame.
pub open spec fn ret_effect<E>(before: MachineView<E>, outputs_count: usize, after: MachineView<E>, r: Result<(), RuntimeError>) -> bool {
    let moved = available(before.evaluation, outputs_count);
    let top = before.evaluation.last();
    &&& after.data_stack.memory@ == before.data_stack.memory@
    &&& after.data_stack.branches@ == before.data_stack.branches@
    &&& after.conditions == before.conditions
    &&& after.outputs == before.outputs
    &&& after.calls == before.calls
    &&& if before.evaluation.len() == 0 && outputs_count > 0 {
        &&& r == Err::<(), RuntimeError>(RuntimeError::InternalError(InternalError::EvaluationRootMissing))
        &&& same(before, after)
    } else if moved < outputs_count {
        &&& r == Err::<(), RuntimeError>(RuntimeError::StackUnderflow)
        &&& after.evaluation == before.evaluation.update(before.evaluation.len() - 1, Seq::<E>::empty())
        &&& after.frames == before.frames
        &&& after.instruction_counter == before.instruction_counter
    } else if before.frames.len() == 0 {
        &&& r == Err::<(), RuntimeError>(RuntimeError::StackUnderflow)
        &&& outputs_count > 0 ==> after.evaluation == before.evaluation.update(
            before.evaluation.len() - 1,
            top.take(top.len() - outputs_count),
        )
        &&& outputs_count == 0 ==> after.evaluation == before.evaluation
        &&& after.frames == before.frames
        &&& after.instruction_counter == before.instruction_counter
    } else {
        &&& r is Ok
        &&& after.evaluation == before.evaluation
        &&& after.frames == before.frames.drop_last()
        &&& after.instruction_counter == before.frames.last().return_address
    }
}

/// The values taken from the top of the evaluation stack, the top one first.
pub open spec fn taken<E>(evaluation: Seq<Seq<E>>, count: usize) -> Seq<E> {
    let top = evaluation.last();
    Seq::new(available(evaluation, count), |j: int| top[top.len() - 1 - j])
}

/// What ending the program with `outputs_count` results does: the results
/// leave the evaluation stack and, in their order on the stack, come before
/// the earlier outputs in reverse; the machine goes past every instruction.
/// It fails where there are too few results, after moving those there are.
pub open spec fn exit_effect<E>(before: MachineView<E>, outputs_count: usize, after: MachineView<E>, r: Result<(), RuntimeError>) -> bool {
    let moved = available(before.evaluation, outputs_count);
    let top = before.evaluation.last();
    &&& after.data_stack.memory@ == before.data_stack.memory@
    &&& after.data_stack.branches@ == before.data_stack.branches@
    &&& after.conditions == before.conditions
    &&& after.frames == before.frames
    &&& after.calls == before.calls
    &&& before.evaluation.len() == 0 ==> after.evaluation == before.evaluation
    &&& before.evaluation.len() > 0 ==> after.evaluation == before.evaluation.update(
        before.evaluation.len() - 1,
        top.take(top.len() - moved),
    )
    &&& before.evaluation.len() == 0 && outputs_count > 0 ==> r == Err::<(), RuntimeError>(
        RuntimeError::InternalError(InternalError::EvaluationRootMissing),
    )
    &&& before.evaluation.len() > 0 && moved < outputs_count ==> r == Err::<(), RuntimeError>(
        RuntimeError::StackUnderflow,
    )
    &&& moved == outputs_count ==> r is Ok
    &&& r is Ok ==> after.outputs == (before.outputs + taken(before.evaluation, outputs_count)).reverse()
        && after.instruction_counter == usize::MAX
    &&& r is Err ==> after.outputs == before.outputs + taken(before.evaluation, outputs_count)
        && after.instruction_counter == before.instruction_counter
}

/// The data stack has one more conditional open, with nothing written yet.
pub open spec fn data_forked<E>(before: MachineView<E>, after: MachineView<E>) -> bool {
    fork_effect(before.data_stack, after.data_stack)
}

/// The data stack is as before.
pub open spec fn data_same<E>(before: MachineView<E>, after: MachineView<E>) -> bool {
    &&& after.data_stack.memory@ == before.data_stack.memory@
    &&& after.data_stack.branches@ == before.data_stack.branches@
}

/// What opening a conditional with `condition` does once `conjunction`,
/// the condition in force inside its consequence, is known: the conjunction
/// goes on the conditions stack; the current frame gets a branch block with
/// the condition; the evaluation and data stacks start work for the
/// consequence.
pub open spec fn open_conditional_effect<E>(
    before: MachineView<E>,
    condition: E,
    conjunction: E,
    after: MachineView<E>,
    r: Result<(), RuntimeError>,
) -> bool {
    &&& after.instruction_counter == before.instruction_counter
    &&& after.outputs == before.outputs
    &&& after.calls == before.calls
    &&& after.conditions == before.conditions.push(conjunction)
    &&& before.frames.len() == 0 ==> {
        &&& r == Err::<(), RuntimeError>(RuntimeError::InternalError(InternalError::RootFrameMissing))
        &&& after.evaluation == before.evaluation
        &&& after.frames == before.frames
        &&& data_same(before, after)
    }
    &&& before.frames.len() > 0 ==> {
        &&& r is Ok
        &&& after.evaluation == before.evaluation.push(Seq::empty())
        &&& after.frames == with_top_blocks(
            before.frames,
            before.frames.last().blocks.push(Block::Branch(Branch { condition, is_full: false })),
        )
        &&& data_forked(before, after)
    }
}

/// What passing to the alternative of a conditional does once
/// `conjunction`, the condition in force inside the alternative, is known:
/// the conjunction goes on the conditions stack; the data stack restores
/// what the consequence wrote, and the evaluation stack starts work for the
/// alternative.
pub open spec fn enter_alternative_effect<E>(
    before: MachineView<E>,
    conjunction: E,
    after: MachineView<E>,
    r: Result<(), RuntimeError>,
) -> bool {
    &&& after.instruction_counter == before.instruction_counter
    &&& after.outputs == before.outputs
    &&& after.calls == before.calls
    &&& after.frames == before.frames
    &&& after.conditions == before.conditions.push(conjunction)
    &&& switch_effect(before.data_stack, after.data_stack, r)
    &&& r is Ok ==> after.evaluation == before.evaluation.push(Seq::empty())
    &&& r is Err ==> after.evaluation == before.evaluation
}

/// What opening a conditional does: its condition leaves the evaluation
/// stack; the operations are asked for the conjunction of it with the
/// condition in force (the one call made); where they give it, it goes on
/// the conditions stack, the current frame gets a branch block with the
/// condition, and the evaluation and data stacks start work for the
/// consequence; where they fail, the machine fails with their error.
pub open spec fn branch_then_effect<E, O: PrimitiveOperations<E>>(
    before: MachineView<E>,
    after: MachineView<E>,
    r: Result<(), RuntimeError>,
) -> bool {
    let evaluation = before.evaluation;
    &&& after.instruction_counter == before.instruction_counter
    &&& after.outputs == before.outputs
    &&& if evaluation.len() == 0 || evaluation.last().len() == 0 {
        &&& r == Err::<(), RuntimeError>(
            if evaluation.len() == 0 {
                RuntimeError::InternalError(InternalError::EvaluationRootMissing)
            } else {
                RuntimeError::StackUnderflow
            },
        )
        &&& same(before, after)
    } else {
        let condition = evaluation.last().last();
        let popped = spec_pop(evaluation);
        if before.conditions.len() == 0 {
            &&& r == Err::<(), RuntimeError>(RuntimeError::InternalError(InternalError::ConditionsRootMissing))
            &&& after.evaluation == popped
            &&& after.conditions == before.conditions
            &&& after.frames == before.frames
            &&& after.calls == before.calls
            &&& data_same(before, after)
        } else {
            let call = after.calls.last();
            &&& after.calls.len() == before.calls.len() + 1
            &&& after.calls.drop_last() == before.calls
            &&& call == OperationCall::And { left: condition, right: before.conditions.last(), result: call_result(call) }
            &&& match call_result(call) {
                Ok(conjunction) => {
                    &&& O::and_of(condition, before.conditions.last(), conjunction)
                    &&& open_conditional_effect(
                        MachineView { evaluation: popped, calls: after.calls, ..before },
                        condition,
                        conjunction,
                        after,
                        r,
                    )
                },
                Err(e) => {
                    &&& r == Err::<(), RuntimeError>(e)
                    &&& after.evaluation == popped
                    &&& after.conditions == before.conditions
                    &&& after.frames == before.frames
                    &&& data_same(before, after)
                },
            }
        }
    }
}

/// The calls `after` that the operations get, after `before`, for the
/// condition in force in the alternative of a conditional of condition
/// `condition`, where `outer` was in force before the conditional: first
/// the negation of `condition`; where that gives a value, the conjunction of
/// `outer` with it. `result` is what the last call returned.
pub open spec fn alternative_condition_calls<E, O: PrimitiveOperations<E>>(
    before: Seq<OperationCall<E>>,
    condition: E,
    outer: E,
    after: Seq<OperationCall<E>>,
    result: Result<E, RuntimeError>,
) -> bool {
    let first = after[before.len() as int];
    &&& after.len() > before.len()
    &&& after.take(before.len() as int) == before
    &&& first == OperationCall::Not { value: condition, result: call_result(first) }
    &&& match call_result(first) {
        Err(e) => after.len() == before.len() + 1 && result == Err::<E, RuntimeError>(e),
        Ok(negation) => {
            let second = after[before.len() + 1int];
            &&& O::not_of(condition, negation)
            &&& after.len() == before.len() + 2
            &&& second == OperationCall::And { left: outer, right: negation, result: call_result(second) }
            &&& result == call_result(second)
            &&& result matches Ok(c) ==> O::and_of(outer, negation, c)
        },
    }
}

/// What passing to the alternative of the innermost conditional does: its
/// branch block is marked full; the condition in force, which the
/// consequence had, leaves the conditions stack; the operations are asked
/// for the negation of the conditional's condition and the conjunction of
/// the condition in force before the conditional with it; where they give
/// it, it goes on the conditions stack, the data stack restores what the
/// consequence wrote, and the evaluation stack starts work for the
/// alternative; where they fail, the machine fails with their error.
pub open spec fn branch_else_effect<E, O: PrimitiveOperations<E>>(
    before: MachineView<E>,
    after: MachineView<E>,
    r: Result<(), RuntimeError>,
) -> bool {
    let blocks = before.frames.last().blocks;
    &&& after.instruction_counter == before.instruction_counter
    &&& after.outputs == before.outputs
    &&& if before.frames.len() == 0 {
        &&& r == Err::<(), RuntimeError>(RuntimeError::InternalError(InternalError::RootFrameMissing))
        &&& same(before, after)
    } else if blocks.len() == 0 || !(blocks.last() matches Block::Branch(b) && !b.is_full) {
        &&& r == Err::<(), RuntimeError>(RuntimeError::UnexpectedElse)
        &&& after.frames == with_top_blocks(before.frames, if blocks.len() > 0 { blocks.drop_last() } else { blocks })
        &&& after.evaluation == before.evaluation
        &&& after.conditions == before.conditions
        &&& after.calls == before.calls
        &&& data_same(before, after)
    } else {
        let condition = blocks.last()->Branch_0.condition;
        let marked = with_top_blocks(
            before.frames,
            blocks.drop_last().push(Block::Branch(Branch { condition, is_full: true })),
        );
        &&& after.frames == marked
        &&& if before.conditions.len() < 2 {
            &&& r == Err::<(), RuntimeError>(RuntimeError::InternalError(InternalError::ConditionsRootMissing))
            &&& after.conditions == if before.conditions.len() == 0 {
                before.conditions
            } else {
                before.conditions.drop_last()
            }
            &&& after.evaluation == before.evaluation
            &&& after.calls == before.calls
            &&& data_same(before, after)
        } else {
            let outer = before.conditions[before.conditions.len() - 2];
            exists|result: Result<E, RuntimeError>|
                #[trigger] alternative_condition_calls::<E, O>(before.calls, condition, outer, after.calls, result)
                    && match result {
                    Err(e) => {
                        &&& r == Err::<(), RuntimeError>(e)
                        &&& after.conditions == before.conditions.drop_last()
                        &&& after.evaluation == before.evaluation
                        &&& data_same(before, after)
                    },
                    Ok(conjunction) => enter_alternative_effect(
                        MachineView {
                            conditions: before.conditions.drop_last(),
                            frames: marked,
                            calls: after.calls,
                            ..before
                        },
                        conjunction,
                        after,
                        r,
                    ),
                }
        }
    }
}

/// What closing the innermost conditional does: the condition of the
/// conditional leaves the conditions stack, its branch block leaves the
/// current frame; the evaluation stack joins the two branches' frames where
/// there was an alternative and drops the consequence's frame where there
/// was none; then the data stack joins what the branches wrote. Every call
/// of the operations is a selection under the conditional's condition, as
/// the two joins say; the closing fails with the error of a selection that
/// fails, after which it makes no more calls.
pub open spec fn branch_end_effect<E, O: PrimitiveOperations<E>>(
    before: MachineView<E>,
    after: MachineView<E>,
    r: Result<(), RuntimeError>,
) -> bool {
    let blocks = before.frames.last().blocks;
    let made = after.calls.skip(before.calls.len() as int);
    &&& after.instruction_counter == before.instruction_counter
    &&& after.outputs == before.outputs
    &&& after.calls.len() >= before.calls.len()
    &&& after.calls.take(before.calls.len() as int) == before.calls
    &&& if before.conditions.len() == 0 {
        &&& r == Err::<(), RuntimeError>(RuntimeError::InternalError(InternalError::ConditionsRootMissing))
        &&& same(before, after)
    } else if before.frames.len() == 0 {
        &&& r == Err::<(), RuntimeError>(RuntimeError::InternalError(InternalError::RootFrameMissing))
        &&& after.conditions == before.conditions.drop_last()
        &&& after.frames == before.frames
        &&& after.evaluation == before.evaluation
        &&& after.calls == before.calls
        &&& data_same(before, after)
    } else {
        &&& after.conditions == before.conditions.drop_last()
        &&& after.frames == with_top_blocks(before.frames, if blocks.len() > 0 { blocks.drop_last() } else { blocks })
        &&& match if blocks.len() > 0 { Some(blocks.last()) } else { None } {
            Some(Block::Branch(branch)) => if branch.is_full {
                ||| {
                    &&& merge_frames_effect::<E, O>(before.evaluation, branch.condition, after.evaluation, r, made)
                    &&& r is Err
                    &&& data_same(before, after)
                }
                ||| {
                    let k = before.evaluation.last().len() as int;
                    &&& k <= made.len()
                    &&& merge_frames_effect::<E, O>(
                        before.evaluation,
                        branch.condition,
                        after.evaluation,
                        Ok(()),
                        made.take(k),
                    )
                    &&& data_merge_effect::<E, O>(
                        before.data_stack,
                        branch.condition,
                        after.data_stack,
                        r,
                        made.skip(k),
                    )
                }
            } else if before.evaluation.len() == 0 {
                &&& r == Err::<(), RuntimeError>(RuntimeError::StackUnderflow)
                &&& after.evaluation == before.evaluation
                &&& after.calls == before.calls
                &&& data_same(before, after)
            } else {
                &&& after.evaluation == before.evaluation.drop_last()
                &&& data_merge_effect::<E, O>(before.data_stack, branch.condition, after.data_stack, r, made)
            },
            _ => {
                &&& r == Err::<(), RuntimeError>(RuntimeError::UnexpectedEndIf)
                &&& after.evaluation == before.evaluation
                &&& after.calls == before.calls
                &&& data_same(before, after)
            },
        }
    }
}

} // verus!
