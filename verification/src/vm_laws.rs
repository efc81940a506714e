//! Laws of the virtual machine that relate several of its operations.

use vstd::prelude::*;

use crate::vm::branch_else_effect;
use crate::vm::branch_end_effect;
use crate::vm::branch_then_effect;
use crate::vm::call_effect;
use crate::vm::exit_effect;
use crate::vm::load_effect;
use crate::vm::loop_begin_effect;
use crate::vm::loop_end_effect;
use crate::vm::pop_effect;
use crate::vm::push_effect;
use crate::vm::read_result;
use crate::vm::ret_effect;
use crate::vm::same;
use crate::vm::frame_after_store;
use crate::vm::store_effect;
use crate::vm::taken;
use crate::vm::with_top_blocks;
use crate::vm::Block;
use crate::vm::Branch;
use crate::vm::FrameView;
use crate::vm::Loop;
use crate::vm::MachineView;
use crate::vm_state::cell;
use crate::vm_state::fork_effect;
use crate::vm_state::lemma_recorded;
use crate::vm_state::recorded;
use crate::vm_state::records;
use crate::vm_state::set_effect;
use crate::vm_state::switch_effect;
use crate::vm_state::DataStack;
use crate::vm_state::PrimitiveOperations;
use crate::vm_state::spec_pop;
use crate::vm_state::spec_push;
use crate::vm_state::RuntimeError;

verus! {

/// Taking a value right after putting it gives that value back and leaves
/// the machine as it was.
pub proof fn law_push_then_pop<E>(
    s0: MachineView<E>,
    value: E,
    s1: MachineView<E>,
    r1: Result<(), RuntimeError>,
    s2: MachineView<E>,
    r2: Result<E, RuntimeError>,
)
    requires
        s0.evaluation.len() > 0,
        push_effect(s0, value, s1, r1),
        pop_effect(s1, s2, r2),
    ensures
        r1 is Ok,
        r2 == Ok::<E, RuntimeError>(value),
        same(s0, s2),
{
    assert(spec_pop(spec_push(s0.evaluation, value)) =~= s0.evaluation) by {
        assert(s0.evaluation.last().push(value).drop_last() =~= s0.evaluation.last());
    }
}

/// Loading a cell of the current frame right after storing `value` there
/// gives a copy of `value`.
pub proof fn law_store_then_load<E: Clone>(
    s0: MachineView<E>,
    address: usize,
    value: E,
    s1: MachineView<E>,
    r1: Result<(), RuntimeError>,
    s2: MachineView<E>,
    r2: Result<E, RuntimeError>,
)
    requires
        s0.frames.len() > 0,
        s0.frames.last().stack_frame_begin + address < usize::MAX,
        store_effect(s0, address, value, s1, r1),
        load_effect(s1, address, s2, r2),
    ensures
        r1 is Ok,
        r2 matches Ok(c) && cloned(value, c),
{
    let begin = s0.frames.last().stack_frame_begin;
    assert(s1.frames.last().stack_frame_begin == begin);
    assert(cell(s1.data_stack.memory@, begin + address) == Some(value));
}

/// Loading a cell by its global address right after `store_global` put
/// `value` there gives a copy of `value`.
pub proof fn law_store_global_then_load_global<E: Clone>(
    d0: DataStack<E>,
    address: usize,
    value: E,
    d1: DataStack<E>,
    r: Result<E, RuntimeError>,
)
    requires
        set_effect(d0, d1, address, value),
        read_result(d1.memory@, address as int, r),
    ensures
        r matches Ok(c) && cloned(value, c),
{
    assert(cell(d1.memory@, address as int) == Some(value));
}

/// Storing `value` in the cell at `address` of the current frame puts it in
/// the cell whose global address is the frame's beginning plus `address`:
/// loading that global address right after gives a copy of `value`.
pub proof fn law_store_then_load_global_at_frame<E: Clone>(
    s0: MachineView<E>,
    address: usize,
    value: E,
    s1: MachineView<E>,
    r1: Result<(), RuntimeError>,
    r2: Result<E, RuntimeError>,
)
    requires
        s0.frames.len() > 0,
        s0.frames.last().stack_frame_begin + address < usize::MAX,
        store_effect(s0, address, value, s1, r1),
        read_result(s1.data_stack.memory@, s0.frames.last().stack_frame_begin + address, r2),
    ensures
        r1 is Ok,
        r2 matches Ok(c) && cloned(value, c),
{
    assert(cell(s1.data_stack.memory@, s0.frames.last().stack_frame_begin + address) == Some(value));
}

/// Returning from a call goes back to the instruction of the call and to
/// the caller's frames, provided the callee leaves the frames as the call
/// made them and has its results on the evaluation stack.
pub proof fn law_call_then_return<E>(
    s0: MachineView<E>,
    address: usize,
    inputs_count: usize,
    s1: MachineView<E>,
    body: MachineView<E>,
    outputs_count: usize,
    s2: MachineView<E>,
    r2: Result<(), RuntimeError>,
)
    requires
        call_effect(s0, address, inputs_count, s1, Ok(())),
        body.frames == s1.frames,
        outputs_count > 0 ==> body.evaluation.len() > 0 && body.evaluation.last().len() >= outputs_count,
        ret_effect(body, outputs_count, s2, r2),
    ensures
        r2 is Ok,
        s2.frames == s0.frames,
        s2.instruction_counter == s0.instruction_counter,
        s2.evaluation == body.evaluation,
{
    assert(s0.frames.len() > 0);
    assert(s1.frames.drop_last() =~= s0.frames);
}

/// Right after a loop of `iterations` iterations opens, the end of an
/// iteration goes back to the instruction where the loop opened while
/// iterations are left, and otherwise closes the loop, which leaves the
/// frames as they were before it opened.
pub proof fn law_loop_begin_then_end<E>(
    s0: MachineView<E>,
    iterations: usize,
    s1: MachineView<E>,
    r1: Result<(), RuntimeError>,
    s2: MachineView<E>,
    r2: Result<(), RuntimeError>,
)
    requires
        s0.frames.len() > 0,
        iterations >= 1,
        loop_begin_effect(s0, iterations, s1, r1),
        loop_end_effect(s1, s2, r2),
    ensures
        r1 is Ok,
        r2 is Ok,
        iterations > 1 ==> s2.instruction_counter == s0.instruction_counter && s2.frames.last().blocks.last()
            == Block::<E>::Loop(Loop { first_instruction_index: s0.instruction_counter, iterations_left: (iterations - 2) as usize }),
        iterations == 1 ==> s2.instruction_counter == s0.instruction_counter && s2.frames == s0.frames,
{
    let blocks = s0.frames.last().blocks;
    assert(s1.frames.last().blocks == blocks.push(
        Block::Loop(Loop { first_instruction_index: s0.instruction_counter, iterations_left: (iterations - 1) as usize }),
    ));
    if iterations == 1 {
        assert(blocks.push(
            Block::Loop(Loop { first_instruction_index: s0.instruction_counter, iterations_left: 0 }),
        ).drop_last() =~= blocks);
        assert(s2.frames =~= s0.frames);
    }
}

/// A conditional with an empty consequence and no alternative only takes its
/// condition from the evaluation stack: the conditions, the frames, the
/// memory and the rest of the evaluation stack are as they were.
pub proof fn law_empty_conditional<E, O: PrimitiveOperations<E>>(
    s0: MachineView<E>,
    s1: MachineView<E>,
    s2: MachineView<E>,
    r2: Result<(), RuntimeError>,
)
    requires
        branch_then_effect::<E, O>(s0, s1, Ok(())),
        branch_end_effect::<E, O>(s1, s2, r2),
    ensures
        r2 is Ok,
        s2.conditions == s0.conditions,
        s2.frames == s0.frames,
        s2.evaluation == spec_pop(s0.evaluation),
        s2.data_stack.memory@ == s0.data_stack.memory@,
        s2.data_stack.branches@ == s0.data_stack.branches@,
        s2.instruction_counter == s0.instruction_counter,
{
    let blocks = s0.frames.last().blocks;
    let condition = s0.evaluation.last().last();
    assert(s1.frames.last().blocks.drop_last() =~= blocks);
    assert(s2.frames =~= s0.frames);
    assert(spec_pop(s0.evaluation).push(Seq::empty()).drop_last() =~= spec_pop(s0.evaluation));
    let top = s1.data_stack.branches@.last();
    assert forall|i: int| 0 <= i < s2.data_stack.memory@.len() implies s2.data_stack.memory@[i]
        == s1.data_stack.memory@[i] by {
        assert(!top.touches(i));
        assert(cell(s2.data_stack.memory@, i) == cell(s1.data_stack.memory@, i));
    }
    assert(s2.data_stack.memory@ =~= s0.data_stack.memory@);
}

/// Ending a program that has put out nothing yet puts out the top values of
/// the evaluation stack in their order on the stack.
pub proof fn law_exit_outputs_in_stack_order<E>(
    s0: MachineView<E>,
    outputs_count: usize,
    s1: MachineView<E>,
)
    requires
        s0.outputs.len() == 0,
        s0.evaluation.len() > 0,
        s0.evaluation.last().len() >= outputs_count,
        exit_effect(s0, outputs_count, s1, Ok(())),
    ensures
        s1.outputs == s0.evaluation.last().subrange(
            s0.evaluation.last().len() - outputs_count,
            s0.evaluation.last().len() as int,
        ),
{
    let top = s0.evaluation.last();
    assert(s0.outputs + taken(s0.evaluation, outputs_count) =~= taken(s0.evaluation, outputs_count));
    assert(s1.outputs =~= top.subrange(top.len() - outputs_count, top.len() as int));
}

/// `d` is the data stack inside the consequence of a conditional opened on
/// the data stack `d0`: the conditionals that were open in `d0` are as they
/// were, and each cell of `d0` is what the consequence recorded for it, or,
/// where it recorded nothing, what `d` holds there.
pub open spec fn in_consequence_of<E>(d0: DataStack<E>, d: DataStack<E>) -> bool {
    let saved = d.branches@.last().saved();
    &&& d.branches@.len() == d0.branches@.len() + 1
    &&& d.branches@.drop_last() == d0.branches@
    &&& d.branches@.last() is IfThen
    &&& forall|a: int| #[trigger] cell(d0.memory@, a) == if records(saved, a) {
        recorded(saved, a)
    } else {
        cell(d.memory@, a)
    }
}

/// Opening a conditional on a data stack enters its consequence.
pub proof fn law_fork_enters_consequence<E>(d0: DataStack<E>, d1: DataStack<E>)
    requires
        fork_effect(d0, d1),
    ensures
        in_consequence_of(d0, d1),
{
}

/// A write inside the consequence of a conditional keeps what the data
/// stack knows of the memory before the conditional.
pub proof fn law_write_in_consequence<E>(
    d0: DataStack<E>,
    d: DataStack<E>,
    address: usize,
    value: E,
    d2: DataStack<E>,
)
    requires
        d.wf(),
        d2.wf(),
        in_consequence_of(d0, d),
        set_effect(d, d2, address, value),
    ensures
        in_consequence_of(d0, d2),
{
    let top = d.branches@.last();
    let new_top = d2.branches@.last();
    let s = top.saved();
    let s2 = new_top.saved();
    assert(top.wf(d.memory@.len()));
    assert(new_top.wf(d2.memory@.len()));
    assert(d2.branches@.drop_last() =~= d0.branches@) by {
        assert forall|i: int| 0 <= i < d0.branches@.len() implies d2.branches@[i] == d0.branches@[i] by {
            assert(d.branches@[i] == d0.branches@[i]);
        }
    }
    if !records(s, address as int) {
        let n = s.len() as int;
        assert(s2 == s.push((address, cell(d.memory@, address as int))));
        assert forall|a: int| #[trigger] cell(d0.memory@, a) == if records(s2, a) {
            recorded(s2, a)
        } else {
            cell(d2.memory@, a)
        } by {
            if a == address {
                lemma_recorded(s2, d2.memory@.len(), n);
            } else {
                if records(s, a) {
                    let i = choose|i: int| 0 <= i < s.len() && s[i].0 == a;
                    lemma_recorded(s, d.memory@.len(), i);
                    lemma_recorded(s2, d2.memory@.len(), i);
                } else if records(s2, a) {
                    let i = choose|i: int| 0 <= i < s2.len() && s2[i].0 == a;
                    assert(i != n);
                    assert(s[i].0 == a);
                }
            }
        }
    } else {
        assert(s2 == s);
    }
}

/// Passing to the alternative of a conditional gives back the memory as it
/// was when the conditional opened, whatever the consequence wrote.
pub proof fn law_alternative_starts_from_memory_before<E>(
    d0: DataStack<E>,
    d: DataStack<E>,
    d2: DataStack<E>,
    r: Result<(), RuntimeError>,
)
    requires
        in_consequence_of(d0, d),
        switch_effect(d, d2, r),
    ensures
        r is Ok,
        forall|a: int| #[trigger] cell(d2.memory@, a) == cell(d0.memory@, a),
        d2.branches@.drop_last() == d0.branches@,
{
}

/// Storing in the current frame inside the consequence of a conditional
/// opened on the data stack `d0` keeps what the machine knows of the memory
/// before the conditional.
pub proof fn law_store_in_consequence<E>(
    d0: DataStack<E>,
    s: MachineView<E>,
    address: usize,
    value: E,
    s2: MachineView<E>,
    r: Result<(), RuntimeError>,
)
    requires
        s.data_stack.wf(),
        s2.data_stack.wf(),
        in_consequence_of(d0, s.data_stack),
        store_effect(s, address, value, s2, r),
    ensures
        in_consequence_of(d0, s2.data_stack),
{
    if s.frames.len() > 0 {
        law_write_in_consequence(
            d0,
            s.data_stack,
            (s.frames.last().stack_frame_begin + address) as usize,
            value,
            s2.data_stack,
        );
    }
}

/// A call inside the consequence of a conditional, which moves its
/// arguments into the cells of the new frame, keeps what the machine knows
/// of the memory before the conditional.
pub proof fn law_call_in_consequence<E>(
    d0: DataStack<E>,
    s: MachineView<E>,
    address: usize,
    inputs_count: usize,
    s2: MachineView<E>,
    r: Result<(), RuntimeError>,
)
    requires
        in_consequence_of(d0, s.data_stack),
        call_effect(s, address, inputs_count, s2, r),
    ensures
        in_consequence_of(d0, s2.data_stack),
{
    if s.frames.len() > 0 {
        let d = s.data_stack;
        let d2 = s2.data_stack;
        assert(d2.branches@.drop_last() =~= d0.branches@) by {
            assert forall|i: int| 0 <= i < d0.branches@.len() implies d2.branches@[i] == d0.branches@[i] by {
                assert(d.branches@[i] == d0.branches@[i]);
            }
        }
    }
}

/// A conditional that `branch_then` opens on the machine `s0` starts in its
/// consequence.
pub proof fn law_branch_then_enters_consequence<E, O: PrimitiveOperations<E>>(s0: MachineView<E>, s1: MachineView<E>)
    requires
        branch_then_effect::<E, O>(s0, s1, Ok(())),
    ensures
        in_consequence_of(s0.data_stack, s1.data_stack),
{
}

/// When `branch_else` passes to the alternative of a conditional whose
/// consequence runs on the machine `s`, the alternative starts on the memory
/// as it was when the conditional opened on the data stack `d0`, whatever
/// the consequence wrote.
pub proof fn law_branch_else_restores_memory<E, O: PrimitiveOperations<E>>(
    d0: DataStack<E>,
    s: MachineView<E>,
    s2: MachineView<E>,
    r2: Result<(), RuntimeError>,
)
    requires
        in_consequence_of(d0, s.data_stack),
        branch_else_effect::<E, O>(s, s2, r2),
        r2 is Ok,
    ensures
        forall|a: int| #[trigger] cell(s2.data_stack.memory@, a) == cell(d0.memory@, a),
{
}

/// The frames of a machine on `s0` inside a loop opened there, with
/// `left` iterations left after the current one.
pub open spec fn loop_frames<E>(s0: MachineView<E>, left: usize) -> Seq<FrameView<E>> {
    with_top_blocks(
        s0.frames,
        s0.frames.last().blocks.push(
            Block::Loop(Loop { first_instruction_index: s0.instruction_counter, iterations_left: left }),
        ),
    )
}

/// A run of a loop of `iterations` iterations opened on `s0`: the `i`-th
/// iteration starts on `starts[i]` (the first right after `loop_begin`, the
/// others right after the previous `loop_end`), its body ends on `ends[i]`
/// leaving the frames as it found them, and `loop_end` then gives
/// `results[i]` and `after[i]`.
pub open spec fn loop_run<E>(
    s0: MachineView<E>,
    iterations: usize,
    starts: Seq<MachineView<E>>,
    ends: Seq<MachineView<E>>,
    results: Seq<Result<(), RuntimeError>>,
    after: Seq<MachineView<E>>,
) -> bool {
    &&& starts.len() == iterations
    &&& ends.len() == iterations
    &&& results.len() == iterations
    &&& after.len() == iterations
    &&& loop_begin_effect(s0, iterations, starts[0], Ok(()))
    &&& forall|i: int| 0 <= i < iterations ==> #[trigger] ends[i].frames == starts[i].frames
    &&& forall|i: int| 0 <= i < iterations ==> loop_end_effect(#[trigger] ends[i], after[i], results[i])
    &&& forall|i: int| 0 < i < iterations ==> #[trigger] starts[i] == after[i - 1]
}

/// In a run of a loop, the `k`-th iteration starts with the loop block on
/// top of the current frame and `iterations - 1 - k` iterations left.
proof fn lemma_loop_run_frames<E>(
    s0: MachineView<E>,
    iterations: usize,
    starts: Seq<MachineView<E>>,
    ends: Seq<MachineView<E>>,
    results: Seq<Result<(), RuntimeError>>,
    after: Seq<MachineView<E>>,
    k: int,
)
    requires
        s0.frames.len() > 0,
        iterations >= 1,
        loop_run(s0, iterations, starts, ends, results, after),
        0 <= k < iterations,
    ensures
        starts[k].frames == loop_frames(s0, (iterations - 1 - k) as usize),
    decreases k,
{
    if k > 0 {
        lemma_loop_run_frames(s0, iterations, starts, ends, results, after, k - 1);
        let f = loop_frames(s0, (iterations - k) as usize);
        let e = ends[k - 1];
        assert(e.frames == f);
        assert(f.last().blocks == s0.frames.last().blocks.push(
            Block::Loop(Loop { first_instruction_index: s0.instruction_counter, iterations_left: (iterations - k) as usize }),
        ));
        assert(starts[k] == after[k - 1]);
        assert(after[k - 1].frames =~= loop_frames(s0, (iterations - 1 - k) as usize)) by {
            assert(f.last().blocks.drop_last() =~= s0.frames.last().blocks);
        }
    }
}

/// A loop of `iterations` iterations, whose body leaves the frames as it
/// found them, runs its body exactly `iterations` times: each `loop_end`
/// succeeds; all but the last go back to the instruction where the loop
/// opened, with one iteration fewer left; the last closes the loop, which
/// leaves the frames as they were before it opened, and goes on from where
/// the body ended.
pub proof fn law_loop_runs_its_iterations<E>(
    s0: MachineView<E>,
    iterations: usize,
    starts: Seq<MachineView<E>>,
    ends: Seq<MachineView<E>>,
    results: Seq<Result<(), RuntimeError>>,
    after: Seq<MachineView<E>>,
)
    requires
        s0.frames.len() > 0,
        iterations >= 1,
        loop_run(s0, iterations, starts, ends, results, after),
    ensures
        forall|i: int| 0 <= i < iterations ==> #[trigger] results[i] is Ok,
        forall|i: int|
            0 <= i < iterations - 1 ==> #[trigger] after[i].instruction_counter == s0.instruction_counter
                && after[i].frames == loop_frames(s0, (iterations - 2 - i) as usize),
        after[iterations - 1].frames == s0.frames,
        after[iterations - 1].instruction_counter == ends[iterations - 1].instruction_counter,
{
    assert forall|i: int| 0 <= i < iterations implies #[trigger] results[i] is Ok && (i < iterations - 1 ==> (
    after[i].instruction_counter == s0.instruction_counter && after[i].frames == loop_frames(
        s0,
        (iterations - 2 - i) as usize,
    ))) && (i == iterations - 1 ==> after[i].frames == s0.frames && after[i].instruction_counter
        == ends[i].instruction_counter) by {
        lemma_loop_run_frames(s0, iterations, starts, ends, results, after, i);
        let f = loop_frames(s0, (iterations - 1 - i) as usize);
        assert(ends[i].frames == f);
        assert(f.last().blocks.drop_last() =~= s0.frames.last().blocks);
        assert(loop_end_effect(ends[i], after[i], results[i]));
        if i < iterations - 1 {
            assert(after[i].frames =~= loop_frames(s0, (iterations - 2 - i) as usize));
        } else {
            assert(after[i].frames =~= s0.frames);
        }
    }
    assert forall|i: int| 0 <= i < iterations - 1 implies #[trigger] after[i].instruction_counter
        == s0.instruction_counter && after[i].frames == loop_frames(s0, (iterations - 2 - i) as usize) by {
        assert(results[i] is Ok);
    }
    assert(results[iterations - 1] is Ok);
}

/// An if/else/endif leaves the conditions and the blocks of the frames as
/// it found them, whatever its two branches do as long as each leaves them
/// as it found them.
pub proof fn law_conditional_with_alternative_round_trip<E, O: PrimitiveOperations<E>>(
    s0: MachineView<E>,
    s1: MachineView<E>,
    then_end: MachineView<E>,
    s2: MachineView<E>,
    r2: Result<(), RuntimeError>,
    else_end: MachineView<E>,
    s3: MachineView<E>,
    r3: Result<(), RuntimeError>,
)
    requires
        branch_then_effect::<E, O>(s0, s1, Ok(())),
        then_end.conditions == s1.conditions,
        then_end.frames == s1.frames,
        branch_else_effect::<E, O>(then_end, s2, r2),
        r2 is Ok,
        else_end.conditions == s2.conditions,
        else_end.frames == s2.frames,
        branch_end_effect::<E, O>(else_end, s3, r3),
    ensures
        s3.conditions == s0.conditions,
        s3.frames == s0.frames,
{
    let blocks = s0.frames.last().blocks;
    let condition = s0.evaluation.last().last();
    assert(s0.frames.len() > 0);
    assert(s1.frames == with_top_blocks(s0.frames, blocks.push(Block::Branch(Branch { condition, is_full: false }))));
    assert(s1.frames.last().blocks == blocks.push(Block::Branch(Branch { condition, is_full: false })));
    assert(s1.frames.last().blocks.drop_last() =~= blocks);
    assert(s2.frames =~= with_top_blocks(s0.frames, blocks.push(Block::Branch(Branch { condition, is_full: true }))));
    assert(s2.conditions.drop_last() =~= s0.conditions);
    assert(s2.frames.last().blocks.drop_last() =~= blocks);
    assert(s3.frames =~= s0.frames);
}

/// An if/endif without an alternative leaves the conditions and the blocks
/// of the frames as it found them, whatever its consequence does as long as
/// it leaves them as it found them.
pub proof fn law_conditional_round_trip<E, O: PrimitiveOperations<E>>(
    s0: MachineView<E>,
    s1: MachineView<E>,
    then_end: MachineView<E>,
    s2: MachineView<E>,
    r2: Result<(), RuntimeError>,
)
    requires
        branch_then_effect::<E, O>(s0, s1, Ok(())),
        then_end.conditions == s1.conditions,
        then_end.frames == s1.frames,
        branch_end_effect::<E, O>(then_end, s2, r2),
    ensures
        s2.conditions == s0.conditions,
        s2.frames == s0.frames,
{
    let blocks = s0.frames.last().blocks;
    let condition = s0.evaluation.last().last();
    assert(s0.frames.len() > 0);
    assert(s1.frames.last().blocks == blocks.push(Block::Branch(Branch { condition, is_full: false })));
    assert(s1.frames.last().blocks.drop_last() =~= blocks);
    assert(s1.conditions.drop_last() =~= s0.conditions);
    assert(s2.frames =~= s0.frames);
}

/// Storing in the current frame never moves the frame's end back: the end
/// becomes the larger of what it was and the cell after the one stored; the
/// frame's beginning and return address stay.
pub proof fn law_store_keeps_frame_end<E>(
    s0: MachineView<E>,
    address: usize,
    value: E,
    s1: MachineView<E>,
    r: Result<(), RuntimeError>,
)
    requires
        s0.frames.len() > 0,
        s0.frames.last().stack_frame_begin + address < usize::MAX,
        store_effect(s0, address, value, s1, r),
    ensures
        s1.frames.len() == s0.frames.len(),
        s1.frames.last().stack_frame_begin == s0.frames.last().stack_frame_begin,
        s1.frames.last().return_address == s0.frames.last().return_address,
        s1.frames.last().stack_frame_end >= s0.frames.last().stack_frame_end,
        s1.frames.last().stack_frame_end >= s0.frames.last().stack_frame_begin + address + 1,
        s1.frames.last().stack_frame_end == s0.frames.last().stack_frame_end || s1.frames.last().stack_frame_end
            == s0.frames.last().stack_frame_begin + address + 1,
{
    assert(s1.frames.last() == frame_after_store(s0.frames.last(), address));
}

/// A call made right after a store in the current frame starts its frame
/// past the stored cell, and leaves that cell holding the stored value.
pub proof fn law_call_after_store_keeps_stored_cell<E>(
    s0: MachineView<E>,
    address: usize,
    value: E,
    s1: MachineView<E>,
    r1: Result<(), RuntimeError>,
    call_address: usize,
    inputs_count: usize,
    s2: MachineView<E>,
    r2: Result<(), RuntimeError>,
)
    requires
        s0.frames.len() > 0,
        s0.frames.last().stack_frame_begin + address < usize::MAX,
        store_effect(s0, address, value, s1, r1),
        call_effect(s1, call_address, inputs_count, s2, r2),
    ensures
        s2.frames.last().stack_frame_begin > s0.frames.last().stack_frame_begin + address,
        cell(s2.data_stack.memory@, s0.frames.last().stack_frame_begin + address) == Some(value),
{
    let a = s0.frames.last().stack_frame_begin + address;
    assert(cell(s1.data_stack.memory@, a) == Some(value));
    assert(cell(s2.data_stack.memory@, a) == cell(s1.data_stack.memory@, a));
}

} // verus!
