use zinc::instructions::Call;
use zinc::instructions::Return;
use zinc::vm::InternalVM;
use zinc::vm::VirtualMachine;
use zinc::vm_state::InternalError;
use zinc::vm_state::PrimitiveOperations;
use zinc::vm_state::RuntimeError;

/// Operations on plain integers, where a condition holds when it is not zero.
struct Plain;

impl PrimitiveOperations<i64> for Plain {
    fn and_of(left: i64, right: i64, result: i64) -> bool {
        result == ((left != 0) && (right != 0)) as i64
    }

    fn not_of(value: i64, result: i64) -> bool {
        result == (value == 0) as i64
    }

    fn select_of(condition: i64, if_true: i64, if_false: i64, result: i64) -> bool {
        result == if condition != 0 { if_true } else { if_false }
    }

    fn and(&mut self, left: &i64, right: &i64) -> Result<i64, RuntimeError> {
        Ok(((*left != 0) && (*right != 0)) as i64)
    }

    fn not(&mut self, value: &i64) -> Result<i64, RuntimeError> {
        Ok((*value == 0) as i64)
    }

    fn conditional_select(&mut self, condition: &i64, if_true: &i64, if_false: &i64) -> Result<i64, RuntimeError> {
        Ok(if *condition != 0 { *if_true } else { *if_false })
    }
}

fn machine() -> VirtualMachine<i64, Plain> {
    VirtualMachine::new(Plain, 1)
}

fn top_frame_values(vm: &VirtualMachine<i64, Plain>) -> Vec<i64> {
    vm.state.evaluation_stack.frames.last().cloned().unwrap_or_default()
}

#[test]
fn push_then_pop() {
    let mut vm = machine();
    vm.push(5).unwrap();
    vm.push(7).unwrap();
    assert_eq!(Ok(7), vm.pop());
    assert_eq!(Ok(5), vm.pop());
    assert_eq!(Err(RuntimeError::StackUnderflow), vm.pop());
}

#[test]
fn store_then_load() {
    let mut vm = machine();
    vm.store(3, 42).unwrap();
    assert_eq!(Ok(42), vm.load(3));
    assert_eq!(Ok(42), vm.load_global(3));
    assert_eq!(Err(RuntimeError::UninitializedStorageAccess), vm.load(2));
    assert_eq!(Err(RuntimeError::UninitializedStorageAccess), vm.load(4));
    assert_eq!(4, vm.state.frames_stack[0].stack_frame_end);
    vm.store_global(0, 9).unwrap();
    assert_eq!(Ok(9), vm.load(0));
}

#[test]
fn call_moves_arguments_and_return_goes_back() {
    let mut vm = machine();
    vm.store(0, 100).unwrap();
    vm.push(1).unwrap();
    vm.push(2).unwrap();
    vm.state.instruction_counter = 17;
    vm.call(40, 2).unwrap();
    assert_eq!(40, vm.state.instruction_counter);
    assert_eq!(2, vm.state.frames_stack.len());
    // The top argument goes to the first cell of the new frame.
    assert_eq!(Ok(2), vm.load(0));
    assert_eq!(Ok(1), vm.load(1));
    assert_eq!(Ok(100), vm.load_global(0));
    assert_eq!(Vec::<i64>::new(), top_frame_values(&vm));
    vm.push(8).unwrap();
    vm.push(9).unwrap();
    vm.ret(2).unwrap();
    assert_eq!(17, vm.state.instruction_counter);
    assert_eq!(1, vm.state.frames_stack.len());
    assert_eq!(vec![8, 9], top_frame_values(&vm));
}

#[test]
fn call_with_too_few_arguments() {
    let mut vm = machine();
    vm.push(1).unwrap();
    assert_eq!(Err(RuntimeError::StackUnderflow), vm.call(10, 2));
    assert_eq!(0, vm.state.instruction_counter);
}

#[test]
fn return_without_frame() {
    let mut vm = machine();
    vm.ret(0).unwrap();
    assert_eq!(Err(RuntimeError::StackUnderflow), vm.ret(0));
    assert_eq!(Err(RuntimeError::InternalError(InternalError::RootFrameMissing)), vm.load(0));
}

#[test]
fn loop_runs_its_iterations() {
    let mut vm = machine();
    vm.state.instruction_counter = 5;
    vm.loop_begin(3).unwrap();
    let mut jumps = 0;
    loop {
        vm.state.instruction_counter = 9;
        vm.loop_end().unwrap();
        if vm.state.instruction_counter == 5 {
            jumps += 1;
        } else {
            break;
        }
    }
    assert_eq!(2, jumps);
    assert_eq!(0, vm.state.frames_stack[0].blocks.len());
    assert_eq!(Err(RuntimeError::UnexpectedLoopEnd), vm.loop_end());
}

#[test]
fn conditional_without_alternative() {
    let mut vm = machine();
    vm.store(0, 10).unwrap();
    vm.push(0).unwrap();
    vm.branch_then().unwrap();
    assert_eq!(vec![1, 0], vm.state.conditions_stack);
    vm.store(0, 20).unwrap();
    vm.push(99).unwrap();
    vm.branch_end().unwrap();
    // The condition did not hold: the earlier value stays, and the
    // consequence's evaluation frame is dropped.
    assert_eq!(Ok(10), vm.load(0));
    assert_eq!(vec![1], vm.state.conditions_stack);
    assert_eq!(Vec::<i64>::new(), top_frame_values(&vm));
}

#[test]
fn conditional_with_alternative() {
    let mut vm = machine();
    vm.store(0, 10).unwrap();
    vm.push(1).unwrap();
    vm.branch_then().unwrap();
    vm.store(0, 20).unwrap();
    vm.push(5).unwrap();
    vm.branch_else().unwrap();
    assert_eq!(Ok(10), vm.load(0));
    assert_eq!(vec![1, 0], vm.state.conditions_stack);
    vm.store(0, 30).unwrap();
    vm.push(6).unwrap();
    vm.branch_end().unwrap();
    // The condition held: the consequence's values are selected.
    assert_eq!(Ok(20), vm.load(0));
    assert_eq!(vec![5], top_frame_values(&vm));
    assert_eq!(vec![1], vm.state.conditions_stack);
}

#[test]
fn unexpected_else_and_end() {
    let mut vm = machine();
    assert_eq!(Err(RuntimeError::UnexpectedElse), vm.branch_else());
    assert_eq!(Err(RuntimeError::UnexpectedEndIf), vm.branch_end());
}

#[test]
fn exit_puts_out_values_in_stack_order() {
    let mut vm = machine();
    vm.push(1).unwrap();
    vm.push(2).unwrap();
    vm.push(3).unwrap();
    vm.exit(2).unwrap();
    assert_eq!(vec![2, 3], vm.outputs);
    assert_eq!(usize::MAX, vm.state.instruction_counter);
    assert_eq!(vec![1], top_frame_values(&vm));
}

/// The instructions of a small program.
enum Instruction {
    NoOperation,
    Call(Call),
    Return(Return),
    Load(usize),
    PushConst(i64),
    Lt,
    ConditionalSelect,
}

/// Runs a program after a leading no-operation and gives the evaluation
/// stack, the top value first.
fn run(program: Vec<Instruction>) -> Result<Vec<i64>, RuntimeError> {
    let mut instructions = vec![Instruction::NoOperation];
    instructions.extend(program);
    let mut vm = machine();
    while vm.state.instruction_counter < instructions.len() {
        let index = vm.state.instruction_counter;
        vm.state.instruction_counter += 1;
        match &instructions[index] {
            Instruction::NoOperation => {}
            Instruction::Call(call) => call.execute(&mut vm)?,
            Instruction::Return(ret) => ret.execute(&mut vm)?,
            Instruction::Load(address) => {
                let value = vm.load(*address)?;
                vm.push(value)?;
            }
            Instruction::PushConst(value) => vm.push(*value)?,
            Instruction::Lt => {
                let left = vm.pop()?;
                let right = vm.pop()?;
                vm.push((left < right) as i64)?;
            }
            Instruction::ConditionalSelect => {
                let condition = vm.pop()?;
                let if_true = vm.pop()?;
                let if_false = vm.pop()?;
                vm.push(if condition != 0 { if_true } else { if_false })?;
            }
        }
    }
    let mut stack = Vec::new();
    while let Ok(value) = vm.pop() {
        stack.push(value);
    }
    Ok(stack)
}

#[test]
fn test_func() {
    let program = vec![
        // call main
        Instruction::Call(Call::new(9, 0)),
        // func min(field, field) -> field
        Instruction::Load(1),
        Instruction::Load(0),
        Instruction::Load(1),
        Instruction::Load(0),
        Instruction::Lt,
        Instruction::ConditionalSelect,
        Instruction::Return(Return::new(1)),
        // func main
        Instruction::PushConst(42),
        Instruction::PushConst(5),
        Instruction::PushConst(3),
        Instruction::Call(Call::new(2, 2)),
    ];
    assert_eq!(Ok(vec![3, 42]), run(program));
}

#[test]
fn open_conditional_with_given_conjunction() {
    let mut vm = machine();
    vm.open_conditional(7, 3).unwrap();
    assert_eq!(vec![1, 3], vm.state.conditions_stack);
    assert_eq!(2, vm.state.evaluation_stack.frames.len());
    assert_eq!(1, vm.state.frames_stack[0].blocks.len());
    assert_eq!(1, vm.state.data_stack.branches.len());
    vm.enter_alternative(4).unwrap();
    assert_eq!(vec![1, 3, 4], vm.state.conditions_stack);
    assert_eq!(3, vm.state.evaluation_stack.frames.len());
}

#[test]
fn enter_alternative_outside_a_conditional() {
    let mut vm = machine();
    assert_eq!(Err(RuntimeError::UnexpectedElse), vm.enter_alternative(0));
    assert_eq!(vec![1, 0], vm.state.conditions_stack);
    assert_eq!(1, vm.state.evaluation_stack.frames.len());
}

#[test]
fn empty_conditional_only_takes_its_condition() {
    let mut vm = machine();
    vm.store(2, 8).unwrap();
    vm.push(4).unwrap();
    vm.push(1).unwrap();
    vm.branch_then().unwrap();
    vm.branch_end().unwrap();
    assert_eq!(vec![1], vm.state.conditions_stack);
    assert_eq!(vec![4], top_frame_values(&vm));
    assert_eq!(Ok(8), vm.load(2));
    assert_eq!(0, vm.state.frames_stack[0].blocks.len());
    assert_eq!(0, vm.state.data_stack.branches.len());
}

#[test]
fn alternative_starts_from_memory_before_conditional() {
    let mut vm = machine();
    vm.store(1, 7).unwrap();
    vm.push(0).unwrap();
    vm.branch_then().unwrap();
    vm.store(1, 8).unwrap();
    vm.store(1, 9).unwrap();
    vm.store(2, 3).unwrap();
    vm.store_global(4, 5).unwrap();
    assert_eq!(Ok(9), vm.load(1));
    vm.branch_else().unwrap();
    assert_eq!(Ok(7), vm.load(1));
    assert_eq!(Err(RuntimeError::UninitializedStorageAccess), vm.load(2));
    assert_eq!(Err(RuntimeError::UninitializedStorageAccess), vm.load_global(4));
    vm.branch_end().unwrap();
    // The condition did not hold: the alternative's memory is kept.
    assert_eq!(Ok(7), vm.load(1));
}

#[test]
fn call_inside_consequence_is_undone_by_alternative() {
    let mut vm = machine();
    vm.store(0, 10).unwrap();
    vm.store_global(1, 11).unwrap();
    vm.push(1).unwrap();
    vm.branch_then().unwrap();
    vm.push(77).unwrap();
    vm.push(78).unwrap();
    vm.call(5, 2).unwrap();
    assert_eq!(Ok(78), vm.load_global(1));
    assert_eq!(Ok(77), vm.load_global(2));
    vm.ret(0).unwrap();
    vm.branch_else().unwrap();
    assert_eq!(Ok(10), vm.load(0));
    assert_eq!(Ok(11), vm.load_global(1));
    assert_eq!(Err(RuntimeError::UninitializedStorageAccess), vm.load_global(2));
}

#[test]
fn false_condition_selects_the_alternative_and_restores_blocks() {
    let mut vm = machine();
    vm.push(0).unwrap();
    vm.branch_then().unwrap();
    vm.push(5).unwrap();
    vm.branch_else().unwrap();
    // In the alternative the negation of the condition is in force.
    assert_eq!(vec![1, 1], vm.state.conditions_stack);
    vm.push(6).unwrap();
    vm.branch_end().unwrap();
    assert_eq!(vec![6], top_frame_values(&vm));
    assert_eq!(vec![1], vm.state.conditions_stack);
    assert!(vm.state.frames_stack[0].blocks.is_empty());
}

#[test]
fn empty_branches_close_without_selection() {
    let mut vm = machine();
    vm.push(1).unwrap();
    vm.branch_then().unwrap();
    vm.branch_else().unwrap();
    assert_eq!(Ok(()), vm.branch_end());
    assert_eq!(Vec::<i64>::new(), top_frame_values(&vm));
    assert!(vm.state.frames_stack[0].blocks.is_empty());
}
