//! The state of the virtual machine: the evaluation stack, the data stack,
//! function frames and blocks, and the run-time errors.

use vstd::prelude::*;

verus! {

#[derive(Debug, Clone, Copy, PartialEq, Eq)]
pub enum InternalError {
    /// The function frame that every program runs in is missing.
    RootFrameMissing,
    /// The evaluation stack has no frame to work on.
    EvaluationRootMissing,
    /// The conditions stack has no condition to read.
    ConditionsRootMissing,
}

#[derive(Debug, Clone, Copy, PartialEq, Eq)]
pub enum RuntimeError {
    InternalError(InternalError),
    StackUnderflow,
    UnexpectedLoopEnd,
    UnexpectedElse,
    UnexpectedEndIf,
    UninitializedStorageAccess,
    BranchStacksDoNotMatch,
    /// An operation on values failed.
    OperationFailed,
}

/// The operations on values that the control flow of the machine needs.
/// Whoever runs the machine implements them, for the values and the
/// constraint system at hand, and says by the three relations below what
/// their results are.
pub trait PrimitiveOperations<E> {
    /// `result` is a conjunction of `left` and `right`.
    spec fn and_of(left: E, right: E, result: E) -> bool;

    /// `result` is a negation of `value`.
    spec fn not_of(value: E, result: E) -> bool;

    /// `result` is `if_true` where `condition` holds and `if_false` where it
    /// does not.
    spec fn select_of(condition: E, if_true: E, if_false: E, result: E) -> bool;

    /// The conjunction of two boolean values.
    fn and(&mut self, left: &E, right: &E) -> (r: Result<E, RuntimeError>)
        ensures
            r matches Ok(v) ==> Self::and_of(*left, *right, v),
    ;

    /// The negation of a boolean value.
    fn not(&mut self, value: &E) -> (r: Result<E, RuntimeError>)
        ensures
            r matches Ok(v) ==> Self::not_of(*value, v),
    ;

    /// `if_true` where `condition` holds, `if_false` where it does not.
    fn conditional_select(&mut self, condition: &E, if_true: &E, if_false: &E) -> (r: Result<E, RuntimeError>)
        ensures
            r matches Ok(v) ==> Self::select_of(*condition, *if_true, *if_false, v),
    ;
}

/// The stack that instructions take operands from and put results on. It is
/// a stack of frames: a branch of a conditional works on a frame of its own.
pub struct EvaluationStack<E> {
    pub frames: Vec<Vec<E>>,
}

pub open spec fn frame_views<E>(frames: Seq<Vec<E>>) -> Seq<Seq<E>> {
    frames.map_values(|f: Vec<E>| f@)
}

impl<E> View for EvaluationStack<E> {
    type V = Seq<Seq<E>>;

    open spec fn view(&self) -> Seq<Seq<E>> {
        frame_views(self.frames@)
    }
}

pub open spec fn spec_push<E>(frames: Seq<Seq<E>>, value: E) -> Seq<Seq<E>> {
    frames.update(frames.len() - 1, frames.last().push(value))
}

pub open spec fn spec_pop<E>(frames: Seq<Seq<E>>) -> Seq<Seq<E>> {
    frames.update(frames.len() - 1, frames.last().drop_last())
}

/// A call of one of the operations on values: its arguments and what it
/// returned.
pub enum OperationCall<E> {
    And { left: E, right: E, result: Result<E, RuntimeError> },
    Not { value: E, result: Result<E, RuntimeError> },
    Select { condition: E, if_true: E, if_false: E, result: Result<E, RuntimeError> },
}

/// What a call returned.
pub open spec fn call_result<E>(call: OperationCall<E>) -> Result<E, RuntimeError> {
    match call {
        OperationCall::And { result, .. } => result,
        OperationCall::Not { result, .. } => result,
        OperationCall::Select { result, .. } => result,
    }
}

/// `call` is a selection under `condition` between `if_true` and
/// `if_false`, whose result, where it is a value, is one that the
/// operations relate to them.
pub open spec fn is_selection<E, O: PrimitiveOperations<E>>(
    call: OperationCall<E>,
    condition: E,
    if_true: E,
    if_false: E,
) -> bool {
    &&& call == OperationCall::Select { condition, if_true, if_false, result: call_result(call) }
    &&& call_result(call) matches Ok(v) ==> O::select_of(condition, if_true, if_false, v)
}

/// Every call but the last of `calls` returned a value.
pub open spec fn all_but_last_succeed<E>(calls: Seq<OperationCall<E>>) -> bool {
    forall|i: int| 0 <= i < calls.len() - 1 ==> #[trigger] call_result(calls[i]) is Ok
}

/// What joining the frames of the two branches of a conditional of
/// condition `condition` does, where `calls` are the calls of the
/// operations that it makes: the two top frames go; where they are as long
/// as each other, the values at each place of them are handed, from the
/// first place on, to a selection under `condition`, and each value that
/// comes back goes on the frame below. It stops at the first selection that
/// fails, and fails with its error.
pub open spec fn merge_frames_effect<E, O: PrimitiveOperations<E>>(
    before: Seq<Seq<E>>,
    condition: E,
    after: Seq<Seq<E>>,
    r: Result<(), RuntimeError>,
    calls: Seq<OperationCall<E>>,
) -> bool {
    let n = before.len();
    &&& n == 0 ==> r == Err::<(), RuntimeError>(RuntimeError::InternalError(InternalError::EvaluationRootMissing))
        && after == before && calls.len() == 0
    &&& n == 1 ==> r == Err::<(), RuntimeError>(RuntimeError::InternalError(InternalError::EvaluationRootMissing))
        && after == Seq::<Seq<E>>::empty() && calls.len() == 0
    &&& n >= 2 ==> after.len() == n - 2
    &&& n >= 2 && before.last().len() != before[n - 2].len() ==> r == Err::<(), RuntimeError>(
        RuntimeError::BranchStacksDoNotMatch,
    ) && after == before.take(n - 2) && calls.len() == 0
    &&& n == 2 && before.last().len() == before[n - 2].len() ==> calls.len() == 0 && if before.last().len() == 0 {
        r is Ok
    } else {
        r == Err::<(), RuntimeError>(RuntimeError::InternalError(InternalError::EvaluationRootMissing))
    }
    &&& n >= 3 ==> after.take(n - 3) == before.take(n - 3) && after.last().take(before[n - 3].len() as int)
        == before[n - 3]
    &&& n >= 3 && before.last().len() == before[n - 2].len() ==> {
        let base = before[n - 3].len();
        let k = calls.len();
        &&& k <= before.last().len()
        &&& forall|i: int|
            0 <= i < k ==> is_selection::<E, O>(
                #[trigger] calls[i],
                condition,
                before[n - 2][i],
                before.last()[i],
            )
        &&& all_but_last_succeed(calls)
        &&& (k == 0 || call_result(calls[k - 1]) is Ok) ==> r is Ok && k == before.last().len()
            && after.last().len() == base + k
        &&& k > 0 && call_result(calls[k - 1]) is Err ==> r == Err::<(), RuntimeError>(
            call_result(calls[k - 1])->Err_0,
        ) && after.last().len() == base + k - 1
        &&& forall|i: int|
            0 <= i < after.last().len() - base ==> #[trigger] call_result(calls[i]) == Ok::<E, RuntimeError>(
                after.last()[base + i],
            )
    }
}

impl<E> EvaluationStack<E> {
    /// A stack with one empty frame.
    pub fn new() -> (r: EvaluationStack<E>)
        ensures
            r@ == seq![Seq::<E>::empty()],
    {
        let mut frames: Vec<Vec<E>> = Vec::new();
        frames.push(Vec::new());
        let r = EvaluationStack { frames };
        proof {
            assert(r@ =~= seq![Seq::<E>::empty()]);
        }
        r
    }

    /// Puts a value on the top frame.
    pub fn push(&mut self, value: E) -> (r: Result<(), RuntimeError>)
        ensures
            old(self)@.len() == 0 ==> r == Err::<(), RuntimeError>(
                RuntimeError::InternalError(InternalError::EvaluationRootMissing),
            ) && final(self)@ == old(self)@,
            old(self)@.len() > 0 ==> r is Ok && final(self)@ == spec_push(old(self)@, value),
    {
        match self.frames.pop() {
            Some(mut top) => {
                top.push(value);
                self.frames.push(top);
                proof {
                    assert(self@ =~= spec_push(old(self)@, value));
                }
                Ok(())
            },
            None => Err(RuntimeError::InternalError(InternalError::EvaluationRootMissing)),
        }
    }

    /// Takes the value on top of the top frame.
    pub fn pop(&mut self) -> (r: Result<E, RuntimeError>)
        ensures
            old(self)@.len() == 0 ==> r == Err::<E, RuntimeError>(
                RuntimeError::InternalError(InternalError::EvaluationRootMissing),
            ) && final(self)@ == old(self)@,
            old(self)@.len() > 0 && old(self)@.last().len() == 0 ==> r == Err::<E, RuntimeError>(
                RuntimeError::StackUnderflow,
            ) && final(self)@ == old(self)@,
            old(self)@.len() > 0 && old(self)@.last().len() > 0 ==> r == Ok::<E, RuntimeError>(
                old(self)@.last().last(),
            ) && final(self)@ == spec_pop(old(self)@),
    {
        match self.frames.pop() {
            Some(mut top) => {
                match top.pop() {
                    Some(value) => {
                        self.frames.push(top);
                        proof {
                            assert(self@ =~= spec_pop(old(self)@));
                        }
                        Ok(value)
                    },
                    None => {
                        self.frames.push(top);
                        proof {
                            assert(self@ =~= old(self)@);
                        }
                        Err(RuntimeError::StackUnderflow)
                    },
                }
            },
            None => Err(RuntimeError::InternalError(InternalError::EvaluationRootMissing)),
        }
    }

    /// Starts a new empty frame, for a branch.
    pub fn fork(&mut self)
        ensures
            final(self)@ == old(self)@.push(Seq::<E>::empty()),
    {
        self.frames.push(Vec::new());
        proof {
            assert(self@ =~= old(self)@.push(Seq::<E>::empty()));
        }
    }

    /// Drops the top frame, the work of a branch without an alternative.
    pub fn revert(&mut self) -> (r: Result<(), RuntimeError>)
        ensures
            old(self)@.len() == 0 ==> r == Err::<(), RuntimeError>(RuntimeError::StackUnderflow)
                && final(self)@ == old(self)@,
            old(self)@.len() > 0 ==> r is Ok && final(self)@ == old(self)@.drop_last(),
    {
        match self.frames.pop() {
            Some(_) => {
                proof {
                    assert(self@ =~= old(self)@.drop_last());
                }
                Ok(())
            },
            None => Err(RuntimeError::StackUnderflow),
        }
    }

    /// Joins the frames of the two branches of a conditional: takes the
    /// frame of the alternative and the frame of the consequence, and puts
    /// on the frame below, in order, for each pair of values at the same
    /// place, the one that `condition` selects. Each call of the operations
    /// goes on `calls`.
    pub fn merge<O: PrimitiveOperations<E>>(
        &mut self,
        condition: &E,
        operations: &mut O,
        calls: &mut Ghost<Seq<OperationCall<E>>>,
    ) -> (r: Result<(), RuntimeError>)
        ensures
            final(calls)@.len() >= old(calls)@.len(),
            final(calls)@.take(old(calls)@.len() as int) == old(calls)@,
            merge_frames_effect::<E, O>(
                old(self)@,
                *condition,
                final(self)@,
                r,
                final(calls)@.skip(old(calls)@.len() as int),
            ),
    {
        let ghost calls0 = calls@;
        proof {
            assert(calls@.skip(calls0.len() as int) =~= Seq::<OperationCall<E>>::empty());
            assert(calls@.take(calls0.len() as int) =~= calls0);
        }
        let else_case = match self.frames.pop() {
            Some(frame) => frame,
            None => {
                return Err(RuntimeError::InternalError(InternalError::EvaluationRootMissing));
            },
        };
        let then_case = match self.frames.pop() {
            Some(frame) => frame,
            None => {
                proof {
                    assert(self@ =~= Seq::<Seq<E>>::empty());
                }
                return Err(RuntimeError::InternalError(InternalError::EvaluationRootMissing));
            },
        };
        let ghost below = self@;
        proof {
            assert(below =~= old(self)@.take(old(self)@.len() - 2));
        }
        if then_case.len() != else_case.len() {
            proof {
                let n = old(self)@.len();
                if n >= 3 {
                    assert(self@.take(n - 3) =~= old(self)@.take(n - 3));
                    assert(self@.last().take(old(self)@[n - 3].len() as int) =~= old(self)@[n - 3]);
                }
            }
            return Err(RuntimeError::BranchStacksDoNotMatch);
        }
        let n = then_case.len();
        if self.frames.len() == 0 && n > 0 {
            return Err(RuntimeError::InternalError(InternalError::EvaluationRootMissing));
        }
        let mut i: usize = 0;
        while i < n
            invariant
                n == then_case.len() == else_case.len(),
                old(self)@.len() >= 2,
                below == old(self)@.take(old(self)@.len() - 2),
                else_case@ == old(self)@.last(),
                then_case@ == old(self)@[old(self)@.len() - 2],
                i <= n,
                self@.len() == below.len(),
                below.len() > 0 ==> self@.take(below.len() - 1) == below.take(below.len() - 1),
                below.len() > 0 ==> self@.last().len() == below.last().len() + i,
                below.len() > 0 ==> self@.last().take(below.last().len() as int) == below.last(),
                below.len() == 0 ==> n == 0,
                calls@.len() == calls0.len() + i,
                calls@.take(calls0.len() as int) == calls0,
                calls0 == old(calls)@,
                forall|j: int|
                    0 <= j < i ==> is_selection::<E, O>(
                        #[trigger] calls@[calls0.len() + j],
                        *condition,
                        then_case@[j],
                        else_case@[j],
                    ),
                forall|j: int|
                    0 <= j < i ==> #[trigger] call_result(calls@[calls0.len() + j]) == Ok::<E, RuntimeError>(
                        self@.last()[below.last().len() + j],
                    ),
            decreases n - i,
        {
            let result = operations.conditional_select(condition, &then_case[i], &else_case[i]);
            let ghost call = OperationCall::Select {
                condition: *condition,
                if_true: then_case@[i as int],
                if_false: else_case@[i as int],
                result,
            };
            proof {
                let ghost previous = calls@;
                calls@ = calls@.push(call);
                assert(calls@.take(calls0.len() as int) =~= calls0) by {
                    assert(previous.take(calls0.len() as int) == calls0);
                }
            }
            let merged = match result {
                Ok(merged) => merged,
                Err(e) => {
                    proof {
                        lemma_merge_frames_calls::<E, O>(old(self)@, *condition, self@, calls0, calls@, i + 1);
                        let nn = old(self)@.len();
                        if nn >= 3 {
                            assert(self@.take(nn - 3) =~= old(self)@.take(nn - 3));
                        }
                    }
                    return Err(e);
                },
            };
            let ghost before = self@;
            self.push(merged)?;
            proof {
                assert(self@.last() == before.last().push(merged));
                assert forall|j: int| 0 <= j < i + 1 implies #[trigger] call_result(calls@[calls0.len() + j]) == Ok::<
                    E,
                    RuntimeError,
                >(self@.last()[below.last().len() + j]) by {
                    if j < i {
                        assert(self@.last()[below.last().len() + j] == before.last()[below.last().len() + j]);
                    }
                }
                assert(self@.take(below.len() - 1) =~= before.take(below.len() - 1));
                assert(self@.last().take(below.last().len() as int) =~= before.last().take(
                    below.last().len() as int,
                ));
            }
            i = i + 1;
        }
        proof {
            lemma_merge_frames_calls::<E, O>(old(self)@, *condition, self@, calls0, calls@, n as int);
            let b = old(self)@;
            let a = self@;
            let nn = b.len();
            assert(a.len() == nn - 2);
            assert(nn >= 3 ==> a.take(nn - 3) == b.take(nn - 3));
            assert(nn >= 3 ==> a.last().take(b[nn - 3].len() as int) == b[nn - 3]);
        }
        Ok(())
    }
}

/// The calls that a merge of evaluation frames has made, read off the log.
proof fn lemma_merge_frames_calls<E, O: PrimitiveOperations<E>>(
    before: Seq<Seq<E>>,
    condition: E,
    after: Seq<Seq<E>>,
    calls0: Seq<OperationCall<E>>,
    calls: Seq<OperationCall<E>>,
    k: int,
)
    requires
        before.len() >= 2,
        0 <= k <= before.last().len(),
        calls.len() == calls0.len() + k,
        calls.take(calls0.len() as int) == calls0,
        forall|j: int|
            0 <= j < k ==> is_selection::<E, O>(
                #[trigger] calls[calls0.len() + j],
                condition,
                before[before.len() - 2][j],
                before.last()[j],
            ),
    ensures
        calls.skip(calls0.len() as int).len() == k,
        forall|j: int| 0 <= j < k ==> #[trigger] calls.skip(calls0.len() as int)[j] == calls[calls0.len() + j],
        forall|j: int|
            0 <= j < k ==> is_selection::<E, O>(
                #[trigger] calls.skip(calls0.len() as int)[j],
                condition,
                before[before.len() - 2][j],
                before.last()[j],
            ),
{
    assert forall|j: int| 0 <= j < k implies is_selection::<E, O>(
        #[trigger] calls.skip(calls0.len() as int)[j],
        condition,
        before[before.len() - 2][j],
        before.last()[j],
    ) by {
        assert(calls.skip(calls0.len() as int)[j] == calls[calls0.len() + j]);
    }
}

/// The value of the cell at `address` of a memory, where cells past its end
/// are unset.
pub open spec fn cell<E>(memory: Seq<Option<E>>, address: int) -> Option<E> {
    if 0 <= address < memory.len() {
        memory[address]
    } else {
        None
    }
}

/// Whether a list of cells records `address`.
pub open spec fn records<E>(list: Seq<(usize, Option<E>)>, address: int) -> bool {
    exists|i: int| 0 <= i < list.len() && list[i].0 == address
}

/// The addresses of a list are distinct and inside a memory of length `len`.
pub open spec fn list_wf<E>(list: Seq<(usize, Option<E>)>, len: nat) -> bool {
    &&& forall|i: int| 0 <= i < list.len() ==> (#[trigger] list[i]).0 < len
    &&& forall|i: int, j: int| 0 <= i < j < list.len() ==> (#[trigger] list[i]).0 != (#[trigger] list[j]).0
}

/// What the data stack remembers of an open conditional.
pub enum DataBranch<E> {
    /// In the consequence: the cells it has written, each with the value
    /// it had before.
    IfThen { saved: Vec<(usize, Option<E>)> },
    /// In the alternative: the cells the consequence wrote, each with the
    /// value the consequence left there; and the cells the alternative has
    /// written, each with the value it had before the conditional.
    IfThenElse { then_values: Vec<(usize, Option<E>)>, saved: Vec<(usize, Option<E>)> },
}

impl<E> DataBranch<E> {
    /// The cells written in the branch that runs now, with their earlier values.
    pub open spec fn saved(&self) -> Seq<(usize, Option<E>)> {
        match self {
            DataBranch::IfThen { saved } => saved@,
            DataBranch::IfThenElse { saved, .. } => saved@,
        }
    }

    pub open spec fn wf(&self, len: nat) -> bool {
        match self {
            DataBranch::IfThen { saved } => list_wf(saved@, len),
            DataBranch::IfThenElse { then_values, saved } => list_wf(then_values@, len) && list_wf(saved@, len),
        }
    }

    /// Whether the conditional has written `address` in either branch.
    pub open spec fn touches(&self, address: int) -> bool {
        match self {
            DataBranch::IfThen { saved } => records(saved@, address),
            DataBranch::IfThenElse { then_values, saved } => records(then_values@, address) || records(
                saved@,
                address,
            ),
        }
    }
}

/// What writing `value` to the cell at `address` does: the memory grows to
/// hold the cell, the cell holds `value`, other cells keep theirs; in an open
/// conditional, the first write to a cell records what the cell held.
pub open spec fn set_effect<E>(before: DataStack<E>, after: DataStack<E>, address: usize, value: E) -> bool {
    &&& after.memory@.len() == if address < before.memory@.len() {
        before.memory@.len()
    } else {
        (address + 1) as nat
    }
    &&& forall|a: int| #[trigger] cell(after.memory@, a) == if a == address {
        Some(value)
    } else {
        cell(before.memory@, a)
    }
    &&& after.branches@.len() == before.branches@.len()
    &&& forall|i: int| 0 <= i < before.branches@.len() - 1 ==> #[trigger] after.branches@[i] == before.branches@[i]
    &&& before.branches@.len() > 0 ==> {
        let top = before.branches@.last();
        let new_top = after.branches@.last();
        &&& records(top.saved(), address as int) ==> new_top == top
        &&& !records(top.saved(), address as int) ==> new_top.saved() == top.saved().push(
            (address, cell(before.memory@, address as int)),
        )
        &&& (new_top is IfThen <==> top is IfThen)
        &&& top is IfThenElse ==> new_top->then_values == top->then_values
        &&& new_top.touches(address as int)
        &&& forall|a: int| a != address ==> (new_top.touches(a) <==> top.touches(a))
    }
}

/// What writing the cells that `written` holds does to the record of the
/// open conditionals: those below the innermost stay as they were; the
/// innermost keeps its kind and what its consequence left, and records, as
/// well as what it recorded, each written cell with the value that cell had
/// in `before`.
pub open spec fn record_writes<E>(before: DataStack<E>, after: DataStack<E>, written: spec_fn(int) -> bool) -> bool {
    &&& after.branches@.len() == before.branches@.len()
    &&& forall|i: int| 0 <= i < before.branches@.len() - 1 ==> #[trigger] after.branches@[i] == before.branches@[i]
    &&& before.branches@.len() > 0 ==> {
        let top = before.branches@.last();
        let new_top = after.branches@.last();
        &&& (new_top is IfThen <==> top is IfThen)
        &&& top is IfThenElse ==> new_top->then_values == top->then_values
        &&& forall|a: int| #[trigger] records(new_top.saved(), a) <==> records(top.saved(), a) || written(a)
        &&& forall|a: int| records(top.saved(), a) ==> #[trigger] recorded(new_top.saved(), a) == recorded(top.saved(), a)
        &&& forall|a: int| written(a) && !records(top.saved(), a) ==> #[trigger] recorded(new_top.saved(), a) == cell(
            before.memory@,
            a,
        )
    }
}

/// What opening a conditional does to the data stack: the memory stays, and
/// a consequence with nothing written yet goes on top of the conditionals.
pub open spec fn fork_effect<E>(before: DataStack<E>, after: DataStack<E>) -> bool {
    &&& after.memory@ == before.memory@
    &&& after.branches@.len() == before.branches@.len() + 1
    &&& after.branches@.drop_last() == before.branches@
    &&& after.branches@.last() matches DataBranch::IfThen { saved } && saved@.len() == 0
}

/// The memory of the machine: cells addressed from zero, each set or not,
/// and for each open conditional what it has written.
pub struct DataStack<E> {
    pub memory: Vec<Option<E>>,
    pub branches: Vec<DataBranch<E>>,
}

impl<E> DataStack<E> {
    pub open spec fn wf(&self) -> bool {
        forall|i: int| 0 <= i < self.branches@.len() ==> (#[trigger] self.branches@[i]).wf(self.memory@.len())
    }

    pub fn new() -> (r: DataStack<E>)
        ensures
            r.memory@ == Seq::<Option<E>>::empty(),
            r.branches@ == Seq::<DataBranch<E>>::empty(),
            r.wf(),
    {
        DataStack { memory: Vec::new(), branches: Vec::new() }
    }

    /// A copy of the value in the cell at `address`.
    pub fn get(&self, address: usize) -> (r: Result<E, RuntimeError>) where E: Clone
        ensures
            match cell(self.memory@, address as int) {
                Some(v) => r matches Ok(c) && cloned(v, c),
                None => r == Err::<E, RuntimeError>(RuntimeError::UninitializedStorageAccess),
            },
    {
        if address < self.memory.len() {
            match &self.memory[address] {
                Some(v) => Ok(v.clone()),
                None => Err(RuntimeError::UninitializedStorageAccess),
            }
        } else {
            Err(RuntimeError::UninitializedStorageAccess)
        }
    }

    /// Whether `list` records `address`.
    fn find(list: &Vec<(usize, Option<E>)>, address: usize) -> (r: bool)
        ensures
            r == records(list@, address as int),
    {
        let mut i: usize = 0;
        while i < list.len()
            invariant
                i <= list.len(),
                forall|k: int| 0 <= k < i ==> list@[k].0 != address,
            decreases list.len() - i,
        {
            if list[i].0 == address {
                return true;
            }
            i = i + 1;
        }
        false
    }

    /// Puts `value` in the cell at `address`; in a branch, the first write
    /// to a cell keeps what the cell held before.
    pub fn set(&mut self, address: usize, value: E)
        requires
            address < usize::MAX,
            old(self).wf(),
        ensures
            final(self).wf(),
            set_effect(*old(self), *final(self), address, value),
    {
        let ghost old_len = self.memory@.len();
        while self.memory.len() <= address
            invariant
                old(self).wf(),
                self.branches == old(self).branches,
                old_len == old(self).memory@.len(),
                self.memory@.len() >= old_len,
                self.memory@.len() <= if address < old_len { old_len } else { (address + 1) as nat },
                forall|a: int| #[trigger] cell(self.memory@, a) == cell(old(self).memory@, a),
                address < usize::MAX,
            decreases address + 1 - self.memory.len(),
        {
            let ghost before = self.memory@;
            self.memory.push(None);
            proof {
                assert forall|a: int| #[trigger] cell(self.memory@, a) == cell(before, a) by {
                    if 0 <= a < before.len() {
                        assert(self.memory@[a] == before[a]);
                    }
                }
            }
        }
        let ghost grown = self.memory@;
        let mut previous = Some(value);
        self.memory.set_and_swap(address, &mut previous);
        proof {
            assert(previous == cell(old(self).memory@, address as int)) by {
                assert(cell(grown, address as int) == cell(old(self).memory@, address as int));
            }
            assert forall|a: int| #[trigger] cell(self.memory@, a) == if a == address {
                Some(value)
            } else {
                cell(old(self).memory@, a)
            } by {
                assert(cell(grown, a) == cell(old(self).memory@, a));
            }
            assert forall|i: int| 0 <= i < self.branches@.len() implies (#[trigger] self.branches@[i]).wf(
                self.memory@.len(),
            ) by {
                assert(old(self).branches@[i].wf(old_len));
            }
        }
        match self.branches.pop() {
            Some(top) => {
                let ghost old_top = top;
                let top = match top {
                    DataBranch::IfThen { mut saved } => {
                        if !Self::find(&saved, address) {
                            saved.push((address, previous));
                        }
                        DataBranch::IfThen { saved }
                    },
                    DataBranch::IfThenElse { then_values, mut saved } => {
                        if !Self::find(&saved, address) {
                            saved.push((address, previous));
                        }
                        DataBranch::IfThenElse { then_values, saved }
                    },
                };
                proof {
                    assert(top.wf(self.memory@.len())) by {
                        assert(old_top.wf(self.memory@.len()));
                    }
                    assert(records(top.saved(), address as int)) by {
                        if records(old_top.saved(), address as int) {
                            let i = choose|i: int| 0 <= i < old_top.saved().len() && old_top.saved()[i].0 == address;
                            assert(top.saved()[i].0 == address);
                        } else {
                            assert(top.saved()[top.saved().len() - 1].0 == address);
                        }
                    }
                    assert forall|a: int| a != address implies (top.touches(a) <==> old_top.touches(a)) by {
                        if records(top.saved(), a) {
                            let i = choose|i: int| 0 <= i < top.saved().len() && top.saved()[i].0 == a;
                            assert(old_top.saved()[i].0 == a);
                        }
                        if records(old_top.saved(), a) {
                            let i = choose|i: int| 0 <= i < old_top.saved().len() && old_top.saved()[i].0 == a;
                            assert(top.saved()[i].0 == a);
                        }
                    }
                }
                self.branches.push(top);
            },
            None => {},
        }
    }
}

/// What passing from the consequence of the open conditional to its
/// alternative does to the data stack.
pub open spec fn switch_effect<E>(before: DataStack<E>, after: DataStack<E>, r: Result<(), RuntimeError>) -> bool {
    &&& after.memory@.len() == before.memory@.len()
    &&& after.branches@.len() == before.branches@.len()
    &&& if before.branches@.len() > 0 && before.branches@.last() is IfThen {
        let saved = before.branches@.last().saved();
        &&& r is Ok
        &&& after.branches@.drop_last() == before.branches@.drop_last()
        &&& forall|a: int| #[trigger] cell(after.memory@, a) == if records(saved, a) {
            recorded(saved, a)
        } else {
            cell(before.memory@, a)
        }
        &&& after.branches@.last() matches DataBranch::IfThenElse { then_values, saved: now } && {
            &&& now@.len() == 0
            &&& then_values@.len() == saved.len()
            &&& forall|t: int| 0 <= t < saved.len() ==> #[trigger] then_values@[t] == (
                saved[t].0,
                cell(before.memory@, saved[t].0 as int),
            )
        }
    } else {
        &&& r == Err::<(), RuntimeError>(RuntimeError::UnexpectedElse)
        &&& after.memory@ == before.memory@
        &&& after.branches@ == before.branches@
    }
}

/// Closing the conditional `top` on `memory` takes a selection by the
/// operations for some cell: one that both branches, or the consequence and
/// the memory before the conditional, leave set.
pub open spec fn merge_needs_selection<E>(top: DataBranch<E>, memory: Seq<Option<E>>) -> bool {
    match top {
        DataBranch::IfThen { saved } => exists|a: int| #[trigger] records(saved@, a) && needs_selection(
            cell(memory, a),
            recorded(saved@, a),
        ),
        DataBranch::IfThenElse { then_values, saved } => alternative_needs_selection(then_values@, saved@, memory),
    }
}

/// The values that the consequence and the alternative of the conditional
/// `top` leave in the cell at `a`, where the alternative's memory (or, with
/// no alternative, the consequence's) is `memory`: for a conditional
/// without alternative, the value in `memory` and the value before the
/// conditional; with one, the value the consequence left (the value before
/// the conditional where it did not write the cell) and the value in
/// `memory`.
pub open spec fn merge_values<E>(top: DataBranch<E>, memory: Seq<Option<E>>, a: int) -> (Option<E>, Option<E>) {
    match top {
        DataBranch::IfThen { saved } => (cell(memory, a), recorded(saved@, a)),
        DataBranch::IfThenElse { then_values, saved } => if records(then_values@, a) {
            (recorded(then_values@, a), cell(memory, a))
        } else {
            (recorded(saved@, a), cell(memory, a))
        },
    }
}

/// `call` is a selection under `condition` between the two values that the
/// branches of `top` leave in some cell that the conditional wrote.
pub open spec fn is_cell_selection<E, O: PrimitiveOperations<E>>(
    call: OperationCall<E>,
    condition: E,
    top: DataBranch<E>,
    memory: Seq<Option<E>>,
) -> bool {
    exists|a: int|
        top.touches(a) && (#[trigger] merge_values(top, memory, a)).0 is Some && merge_values(top, memory, a).1 is Some
            && is_selection::<E, O>(
            call,
            condition,
            merge_values(top, memory, a).0->Some_0,
            merge_values(top, memory, a).1->Some_0,
        )
}

/// The calls `calls` that closing the conditional `top` made are selections
/// under `condition`, each for a cell it wrote; all but the last returned a
/// value; the closing failed exactly when the last one failed, with its
/// error.
pub open spec fn merge_log<E, O: PrimitiveOperations<E>>(
    calls: Seq<OperationCall<E>>,
    condition: E,
    top: DataBranch<E>,
    memory: Seq<Option<E>>,
    r: Result<(), RuntimeError>,
) -> bool {
    &&& forall|i: int| 0 <= i < calls.len() ==> is_cell_selection::<E, O>(#[trigger] calls[i], condition, top, memory)
    &&& all_but_last_succeed(calls)
    &&& (calls.len() == 0 || call_result(calls.last()) is Ok) ==> r is Ok
    &&& calls.len() > 0 && call_result(calls.last()) is Err ==> r == Err::<(), RuntimeError>(
        call_result(calls.last())->Err_0,
    )
}

/// The calls of `calls` from `start` on are selections, each for a cell
/// that the conditional `top` wrote, and each returned a value.
pub open spec fn cell_selections_succeed<E, O: PrimitiveOperations<E>>(
    calls: Seq<OperationCall<E>>,
    start: int,
    condition: E,
    top: DataBranch<E>,
    memory: Seq<Option<E>>,
) -> bool {
    forall|i: int|
        start <= i < calls.len() ==> is_cell_selection::<E, O>(#[trigger] calls[i], condition, top, memory)
            && call_result(calls[i]) is Ok
}

/// `after` is `before` with one more call: a selection under `condition`
/// between `if_true` and `if_false`; `r` failed exactly when that call
/// failed, with its error.
pub open spec fn selection_logged<E, O: PrimitiveOperations<E>>(
    before: Seq<OperationCall<E>>,
    after: Seq<OperationCall<E>>,
    condition: E,
    if_true: E,
    if_false: E,
    r: Result<(), RuntimeError>,
) -> bool {
    &&& after.len() == before.len() + 1
    &&& after.drop_last() == before
    &&& is_selection::<E, O>(after.last(), condition, if_true, if_false)
    &&& match call_result(after.last()) {
        Ok(_) => r is Ok,
        Err(e) => r == Err::<(), RuntimeError>(e),
    }
}

/// Reading a log of a closing that succeeded off its calls from `start`.
proof fn lemma_merge_log_ok<E, O: PrimitiveOperations<E>>(
    calls: Seq<OperationCall<E>>,
    start: int,
    condition: E,
    top: DataBranch<E>,
    memory: Seq<Option<E>>,
)
    requires
        0 <= start <= calls.len(),
        cell_selections_succeed::<E, O>(calls, start, condition, top, memory),
    ensures
        merge_log::<E, O>(calls.skip(start), condition, top, memory, Ok(())),
{
    let log = calls.skip(start);
    assert forall|i: int| 0 <= i < log.len() implies is_cell_selection::<E, O>(#[trigger] log[i], condition, top, memory)
        && call_result(log[i]) is Ok by {
        assert(log[i] == calls[start + i]);
    }
    if log.len() > 0 {
        assert(call_result(log[log.len() - 1]) is Ok);
    }
}

/// Reading a log of a closing that failed at its last call off its calls
/// from `start`.
proof fn lemma_merge_log_failed<E, O: PrimitiveOperations<E>>(
    calls: Seq<OperationCall<E>>,
    start: int,
    condition: E,
    top: DataBranch<E>,
    memory: Seq<Option<E>>,
    e: RuntimeError,
)
    requires
        0 <= start < calls.len(),
        cell_selections_succeed::<E, O>(calls.drop_last(), start, condition, top, memory),
        is_cell_selection::<E, O>(calls.last(), condition, top, memory),
        call_result(calls.last()) == Err::<E, RuntimeError>(e),
    ensures
        merge_log::<E, O>(calls.skip(start), condition, top, memory, Err(e)),
{
    let log = calls.skip(start);
    assert forall|i: int| 0 <= i < log.len() implies is_cell_selection::<E, O>(#[trigger] log[i], condition, top, memory) by {
        assert(log[i] == calls[start + i]);
        if start + i < calls.len() - 1 {
            assert(calls.drop_last()[start + i] == calls[start + i]);
        }
    }
    assert forall|i: int| 0 <= i < log.len() - 1 implies #[trigger] call_result(log[i]) is Ok by {
        assert(log[i] == calls[start + i]);
        assert(calls.drop_last()[start + i] == calls[start + i]);
    }
    assert(log.last() == calls.last());
}

/// What closing the open conditional, of condition `condition`, does to the
/// data stack: each cell that a branch wrote gets the join of the two
/// branches' values, a selection under `condition` where both are set. It
/// succeeds wherever no selection is needed.
pub open spec fn data_merge_effect<E, O: PrimitiveOperations<E>>(
    before: DataStack<E>,
    condition: E,
    after: DataStack<E>,
    r: Result<(), RuntimeError>,
    calls: Seq<OperationCall<E>>,
) -> bool {
    &&& after.memory@.len() == before.memory@.len()
    &&& if before.branches@.len() == 0 {
        &&& r == Err::<(), RuntimeError>(RuntimeError::UnexpectedEndIf)
        &&& after.memory@ == before.memory@
        &&& after.branches@ == before.branches@
        &&& calls.len() == 0
    } else {
        let top = before.branches@.last();
        &&& after.branches@ == before.branches@.drop_last()
        &&& merge_log::<E, O>(calls, condition, top, before.memory@, r)
        &&& !merge_needs_selection(top, before.memory@) ==> r is Ok
        &&& forall|a: int| !top.touches(a) ==> #[trigger] cell(after.memory@, a) == cell(before.memory@, a)
        &&& r is Ok ==> match top {
            DataBranch::IfThen { saved } => forall|a: int| #[trigger] records(saved@, a) ==> merge_result::<E, O>(condition, 
                cell(before.memory@, a),
                recorded(saved@, a),
                cell(after.memory@, a),
            ),
            DataBranch::IfThenElse { then_values, saved } => {
                &&& forall|a: int| #[trigger] records(then_values@, a) ==> merge_result::<E, O>(condition, 
                    recorded(then_values@, a),
                    cell(before.memory@, a),
                    cell(after.memory@, a),
                )
                &&& forall|a: int| #[trigger] records(saved@, a) && !records(then_values@, a) ==> merge_result::<E, O>(condition, 
                    recorded(saved@, a),
                    cell(before.memory@, a),
                    cell(after.memory@, a),
                )
            },
        }
    }
}

/// The earlier value that a list records for `address`.
pub open spec fn recorded<E>(list: Seq<(usize, Option<E>)>, address: int) -> Option<E> {
    list[choose|i: int| 0 <= i < list.len() && list[i].0 == address].1
}

/// In a list with distinct addresses, the earlier value recorded for the
/// address of the `j`-th entry is the value of that entry.
pub(crate) proof fn lemma_recorded<E>(list: Seq<(usize, Option<E>)>, len: nat, j: int)
    requires
        list_wf(list, len),
        0 <= j < list.len(),
    ensures
        recorded(list, list[j].0 as int) == list[j].1,
        records(list, list[j].0 as int),
{
    let i = choose|i: int| 0 <= i < list.len() && list[i].0 == list[j].0;
    if i != j {
        if i < j {
            assert(list[i].0 != list[j].0);
        } else {
            assert(list[j].0 != list[i].0);
        }
    }
}

/// Writing one more cell after the cells that `written` holds, where the
/// cells not yet written are as in `d0`, extends the record by that cell.
pub(crate) proof fn lemma_record_one_more_write<E>(
    d0: DataStack<E>,
    d1: DataStack<E>,
    written: spec_fn(int) -> bool,
    address: usize,
    value: E,
    d2: DataStack<E>,
)
    requires
        d1.wf(),
        d2.wf(),
        record_writes(d0, d1, written),
        forall|a: int| !written(a) ==> #[trigger] cell(d1.memory@, a) == cell(d0.memory@, a),
        set_effect(d1, d2, address, value),
    ensures
        record_writes(d0, d2, |a: int| written(a) || a == address),
{
    let w2 = |a: int| written(a) || a == address;
    assert forall|i: int| 0 <= i < d0.branches@.len() - 1 implies #[trigger] d2.branches@[i] == d0.branches@[i] by {
        assert(d1.branches@[i] == d0.branches@[i]);
    }
    if d0.branches@.len() > 0 {
        let top0 = d0.branches@.last();
        let top1 = d1.branches@.last();
        let top2 = d2.branches@.last();
        let s1 = top1.saved();
        let s2 = top2.saved();
        assert(top1.wf(d1.memory@.len()));
        assert(top2.wf(d2.memory@.len()));
        if records(s1, address as int) {
            assert(top2 == top1);
        } else {
            let n = s1.len() as int;
            assert(s2 == s1.push((address, cell(d1.memory@, address as int))));
            lemma_recorded(s2, d2.memory@.len(), n);
            assert forall|a: int| #[trigger] records(s2, a) <==> records(s1, a) || a == address by {
                if records(s1, a) {
                    let i = choose|i: int| 0 <= i < s1.len() && s1[i].0 == a;
                    assert(s2[i].0 == a);
                }
                if records(s2, a) && a != address {
                    let i = choose|i: int| 0 <= i < s2.len() && s2[i].0 == a;
                    assert(i != n);
                    assert(s1[i].0 == a);
                }
            }
            assert forall|a: int| records(s1, a) implies #[trigger] recorded(s2, a) == recorded(s1, a) by {
                let i = choose|i: int| 0 <= i < s1.len() && s1[i].0 == a;
                lemma_recorded(s1, d1.memory@.len(), i);
                lemma_recorded(s2, d2.memory@.len(), i);
            }
        }
        assert forall|a: int| #[trigger] records(top2.saved(), a) <==> records(top0.saved(), a) || w2(a) by {}
        assert forall|a: int| records(top0.saved(), a) implies #[trigger] recorded(top2.saved(), a) == recorded(
            top0.saved(),
            a,
        ) by {}
        assert forall|a: int| w2(a) && !records(top0.saved(), a) implies #[trigger] recorded(top2.saved(), a)
            == cell(d0.memory@, a) by {
            if !written(a) {
                assert(cell(d1.memory@, a) == cell(d0.memory@, a));
            }
        }
    }
}

impl<E> DataStack<E> {
    /// Opens a conditional: its consequence starts with nothing written.
    pub fn fork(&mut self)
        requires
            old(self).wf(),
        ensures
            final(self).wf(),
            final(self).memory == old(self).memory,
            fork_effect(*old(self), *final(self)),
    {
        self.branches.push(DataBranch::IfThen { saved: Vec::new() });
        proof {
            assert(self.branches@.drop_last() =~= old(self).branches@);
            assert(self.branches@.last().wf(self.memory@.len()));
        }
    }

    /// Passes from the consequence of the open conditional to its
    /// alternative: the cells the consequence wrote get back their earlier
    /// values, and the values the consequence left are kept for the merge.
    pub fn switch_branch(&mut self) -> (r: Result<(), RuntimeError>)
        requires
            old(self).wf(),
        ensures
            final(self).wf(),
            switch_effect(*old(self), *final(self), r),
    {
        let top = match self.branches.pop() {
            Some(top) => top,
            None => {
                return Err(RuntimeError::UnexpectedElse);
            },
        };
        let mut saved = match top {
            DataBranch::IfThen { saved } => saved,
            other => {
                self.branches.push(other);
                proof {
                    assert(self.branches@ =~= old(self).branches@);
                }
                return Err(RuntimeError::UnexpectedElse);
            },
        };
        let ghost all = saved@;
        let ghost memory0 = self.memory@;
        proof {
            assert(old(self).branches@.last().wf(memory0.len()));
        }
        let mut then_values: Vec<(usize, Option<E>)> = Vec::new();
        while saved.len() > 0
            invariant
                old(self).wf(),
                old(self).branches@.len() > 0,
                old(self).branches@.last() is IfThen,
                all == old(self).branches@.last().saved(),
                memory0 == old(self).memory@,
                self.branches@ == old(self).branches@.drop_last(),
                list_wf(all, memory0.len()),
                self.memory@.len() == memory0.len(),
                then_values@.len() <= all.len(),
                saved@ == all.skip(then_values@.len() as int),
                forall|t: int| 0 <= t < then_values@.len() ==> #[trigger] then_values@[t] == (
                    all[t].0,
                    cell(memory0, all[t].0 as int),
                ),
                forall|a: int| #[trigger] cell(self.memory@, a) == if exists|j: int|
                    0 <= j < then_values@.len() && all[j].0 == a {
                    recorded(all, a)
                } else {
                    cell(memory0, a)
                },
            decreases saved.len(),
        {
            let ghost k = then_values@.len() as int;
            let ghost before = self.memory@;
            let (address, earlier) = saved.remove(0);
            proof {
                assert(all[k] == (address, earlier));
                lemma_recorded(all, memory0.len(), k);
                assert forall|j: int| 0 <= j < k implies all[j].0 != address by {
                    assert(all[j].0 != all[k].0);
                }
                assert(cell(before, address as int) == cell(memory0, address as int));
            }
            let mut value = earlier;
            self.memory.set_and_swap(address, &mut value);
            proof {
                assert(value == cell(memory0, address as int));
            }
            then_values.push((address, value));
            proof {
                assert(saved@ =~= all.skip(then_values@.len() as int));
                assert forall|a: int| #[trigger] cell(self.memory@, a) == if exists|j: int|
                    0 <= j < then_values@.len() && all[j].0 == a {
                    recorded(all, a)
                } else {
                    cell(memory0, a)
                } by {
                    if a == address {
                        assert(all[k].0 == a);
                    } else {
                        assert(cell(self.memory@, a) == cell(before, a));
                        if exists|j: int| 0 <= j < then_values@.len() && all[j].0 == a {
                            let j = choose|j: int| 0 <= j < then_values@.len() && all[j].0 == a;
                            assert(j < k);
                        }
                    }
                }
            }
        }
        proof {
            assert forall|a: int| #[trigger] records(all, a) == exists|j: int|
                0 <= j < then_values@.len() && all[j].0 == a by {}
        }
        self.branches.push(DataBranch::IfThenElse { then_values, saved: Vec::new() });
        proof {
            assert(self.branches@.drop_last() =~= old(self).branches@.drop_last());
            assert forall|i: int| 0 <= i < self.branches@.len() implies (#[trigger] self.branches@[i]).wf(
                self.memory@.len(),
            ) by {
                if i < self.branches@.len() - 1 {
                    assert(old(self).branches@[i].wf(memory0.len()));
                } else {
                    let tv = self.branches@[i]->then_values@;
                    assert forall|x: int, y: int| 0 <= x < y < tv.len() implies (#[trigger] tv[x]).0 != (
                    #[trigger] tv[y]).0 by {
                        assert(all[x].0 != all[y].0);
                    }
                }
            }
        }
        Ok(())
    }
}

/// `merged` is what joining the value `then_value` of the consequence with
/// the value `else_value` of the alternative may give: a selection between
/// them where both are set, else the one that is set.
pub open spec fn merge_result<E, O: PrimitiveOperations<E>>(
    condition: E,
    then_value: Option<E>,
    else_value: Option<E>,
    merged: Option<E>,
) -> bool {
    match (then_value, else_value) {
        (Some(t), Some(e)) => merged matches Some(m) && O::select_of(condition, t, e, m),
        (Some(t), None) => merged == Some(t),
        (None, e) => merged == e,
    }
}

/// Joining `then_value` with `else_value` takes a selection by the
/// operations: both are set.
pub open spec fn needs_selection<E>(then_value: Option<E>, else_value: Option<E>) -> bool {
    then_value is Some && else_value is Some
}

/// Closing a conditional with an alternative, on `memory` as the
/// alternative left it, takes a selection for some cell: one that the
/// consequence wrote, or else one that only the alternative wrote.
pub open spec fn alternative_needs_selection<E>(
    then_values: Seq<(usize, Option<E>)>,
    saved: Seq<(usize, Option<E>)>,
    memory: Seq<Option<E>>,
) -> bool {
    ||| exists|a: int| #[trigger] records(then_values, a) && needs_selection(recorded(then_values, a), cell(memory, a))
    ||| exists|a: int| #[trigger] records(saved, a) && !records(then_values, a) && needs_selection(
        recorded(saved, a),
        cell(memory, a),
    )
}

impl<E> DataStack<E> {
    /// Joins the cell at `address`, holding the value of the alternative,
    /// with the value `then_value` of the consequence.
    fn merge_cell<O: PrimitiveOperations<E>>(
        &mut self,
        address: usize,
        then_value: Option<E>,
        condition: &E,
        operations: &mut O,
        calls: &mut Ghost<Seq<OperationCall<E>>>,
    ) -> (r: Result<(), RuntimeError>)
        requires
            address < old(self).memory@.len(),
        ensures
            final(self).branches == old(self).branches,
            final(self).memory@.len() == old(self).memory@.len(),
            forall|a: int| a != address ==> #[trigger] cell(final(self).memory@, a) == cell(old(self).memory@, a),
            r is Ok ==> merge_result::<E, O>(*condition, then_value, cell(old(self).memory@, address as int), cell(final(self).memory@, address as int)),
            !needs_selection(then_value, cell(old(self).memory@, address as int)) ==> r is Ok && final(calls)@
                == old(calls)@,
            needs_selection(then_value, cell(old(self).memory@, address as int)) ==> selection_logged::<E, O>(
                old(calls)@,
                final(calls)@,
                *condition,
                then_value->Some_0,
                cell(old(self).memory@, address as int)->Some_0,
                r,
            ),
            r is Err ==> final(self).memory@ == old(self).memory@,
    {
        if then_value.is_none() {
            return Ok(());
        }
        if self.memory[address].is_none() {
            self.memory.set(address, then_value);
            return Ok(());
        }
        let result = match (&then_value, &self.memory[address]) {
            (Some(t), Some(e)) => {
                let result = operations.conditional_select(condition, t, e);
                proof {
                    calls@ = calls@.push(OperationCall::Select { condition: *condition, if_true: *t, if_false: *e, result });
                    assert(calls@.drop_last() =~= old(calls)@);
                }
                result
            },
            _ => {
                return Err(RuntimeError::OperationFailed);
            },
        };
        let merged = match result {
            Ok(merged) => merged,
            Err(e) => {
                return Err(e);
            },
        };
        self.memory.set(address, Some(merged));
        Ok(())
    }

    /// Closes the open conditional: each cell that either branch wrote gets
    /// the join of the value the consequence left and the value the
    /// alternative left (the earlier value, where there was no alternative or
    /// it did not write the cell). Other cells keep their values.
    pub fn merge<O: PrimitiveOperations<E>>(
        &mut self,
        condition: &E,
        operations: &mut O,
        calls: &mut Ghost<Seq<OperationCall<E>>>,
    ) -> (r: Result<(), RuntimeError>)
        requires
            old(self).wf(),
        ensures
            final(self).wf(),
            final(calls)@.len() >= old(calls)@.len(),
            final(calls)@.take(old(calls)@.len() as int) == old(calls)@,
            data_merge_effect::<E, O>(
                *old(self),
                *condition,
                *final(self),
                r,
                final(calls)@.skip(old(calls)@.len() as int),
            ),
    {
        let ghost calls0 = calls@;
        proof {
            assert(calls@.take(calls0.len() as int) =~= calls0);
            assert(calls@.skip(calls0.len() as int) =~= Seq::<OperationCall<E>>::empty());
        }
        let top = match self.branches.pop() {
            Some(top) => top,
            None => {
                return Err(RuntimeError::UnexpectedEndIf);
            },
        };
        let ghost memory0 = self.memory@;
        let ghost old_top = top;

        proof {
            assert(old(self).branches@.last().wf(memory0.len()));
            assert forall|i: int| 0 <= i < self.branches@.len() implies (#[trigger] self.branches@[i]).wf(
                self.memory@.len(),
            ) by {
                assert(old(self).branches@[i].wf(memory0.len()));
            }
        }
        match top {
            DataBranch::IfThen { saved } => {
                let ghost all = saved@;
                proof {
                    assert(all.len() == saved.len());
                }
                let mut saved = saved;
                let mut k: usize = 0;
                while saved.len() > 0
                    invariant
                        old(self).branches@.len() > 0,
                        old_top == old(self).branches@.last(),
                        old_top is IfThen,
                        all == old_top.saved(),
                        memory0 == old(self).memory@,
                        all.len() <= usize::MAX,
                        self.branches@ == old(self).branches@.drop_last(),
                        self.wf(),
                        self.memory@.len() == memory0.len(),
                        list_wf(all, memory0.len()),
                        k <= all.len(),
                        saved@ == all.skip(k as int),
                        forall|a: int| !(exists|j: int| 0 <= j < k && all[j].0 == a) ==> #[trigger] cell(self.memory@, a) == cell(memory0, a),
                        forall|j: int| 0 <= j < k ==> merge_result::<E, O>(*condition, 
                            #[trigger] cell(memory0, all[j].0 as int),
                            all[j].1,
                            cell(self.memory@, all[j].0 as int),
                        ),
                        calls@.len() >= calls0.len(),
                        calls@.take(calls0.len() as int) == calls0,
                        calls0 == old(calls)@,
                        cell_selections_succeed::<E, O>(calls@, calls0.len() as int, *condition, old_top, memory0),
                    decreases saved.len(),
                {
                    let (address, earlier) = saved.remove(0);
                    let ghost before = self.memory@;
                    proof {
                        assert(all[k as int] == (address, earlier));
                        assert forall|j: int| 0 <= j < k implies all[j].0 != address by {
                            assert(all[j].0 != all[k as int].0);
                        }
                        assert(cell(before, address as int) == cell(memory0, address as int));
                    }
                    let ghost log = calls@;
                    let result = self.merge_cell_consequence(address, earlier, condition, operations, calls);
                    proof {
                        lemma_recorded(all, memory0.len(), k as int);
                        assert(old_top.touches(address as int));
                        assert(merge_values(old_top, memory0, address as int) == (
                            cell(before, address as int),
                            earlier,
                        ));
                        if needs_selection(cell(before, address as int), earlier) {
                            assert(calls@.drop_last() == log);
                            assert(is_cell_selection::<E, O>(calls@.last(), *condition, old_top, memory0));
                            assert(calls@.take(calls0.len() as int) =~= calls0);
                            if result is Ok {
                                assert forall|i: int| calls0.len() <= i < calls@.len() implies is_cell_selection::<E, O>(
                                    #[trigger] calls@[i],
                                    *condition,
                                    old_top,
                                    memory0,
                                ) && call_result(calls@[i]) is Ok by {
                                    if i < calls@.len() - 1 {
                                        assert(calls@[i] == log[i]);
                                    }
                                }
                            }
                        }
                    }
                    proof {
                        assert forall|a: int| !(exists|j: int| 0 <= j < k + 1 && all[j].0 == a) implies #[trigger] cell(
                            self.memory@,
                            a,
                        ) == cell(memory0, a) by {
                            assert(all[k as int].0 != a);
                            assert(cell(self.memory@, a) == cell(before, a));
                        }
                        assert forall|j: int| 0 <= j < k implies merge_result::<E, O>(*condition, 
                            #[trigger] cell(memory0, all[j].0 as int),
                            all[j].1,
                            cell(self.memory@, all[j].0 as int),
                        ) by {
                            assert(all[j].0 != address);
                            assert(cell(self.memory@, all[j].0 as int) == cell(before, all[j].0 as int));
                        }
                    }
                    match result {
                        Ok(()) => {},
                        Err(e) => {
                            proof {
                                lemma_recorded(all, memory0.len(), k as int);
                                assert(records(all, address as int) && needs_selection(
                                    cell(memory0, address as int),
                                    recorded(all, address as int),
                                ));
                                lemma_merge_log_failed::<E, O>(calls@, calls0.len() as int, *condition, old_top, memory0, e);
                                assert forall|a: int| !old_top.touches(a) implies #[trigger] cell(self.memory@, a) == cell(
                                    memory0,
                                    a,
                                ) by {
                                    if exists|j: int| 0 <= j < k + 1 && all[j].0 == a {
                                        let j = choose|j: int| 0 <= j < k + 1 && all[j].0 == a;
                                        assert(records(all, a));
                                    }
                                }
                            }
                            return Err(e);
                        },
                    }
                    k = k + 1;
                    proof {
                        assert(saved@ =~= all.skip(k as int));
                    }
                }
                proof {
                    assert forall|a: int| #[trigger] records(all, a) implies merge_result::<E, O>(*condition, 
                        cell(memory0, a),
                        recorded(all, a),
                        cell(self.memory@, a),
                    ) by {
                        let j = choose|j: int| 0 <= j < all.len() && all[j].0 == a;
                        lemma_recorded(all, memory0.len(), j);
                        assert(merge_result::<E, O>(*condition, cell(memory0, all[j].0 as int), all[j].1, cell(self.memory@, all[j].0 as int)));
                    }
                    lemma_merge_log_ok::<E, O>(calls@, calls0.len() as int, *condition, old_top, memory0);
                }
                Ok(())
            },
            DataBranch::IfThenElse { then_values, saved } => {
                self.merge_alternative(then_values, saved, condition, operations, calls)
            },
        }
    }
}

impl<E> DataStack<E> {
    /// Joins the cell at `address`, holding the value of the consequence,
    /// with the value `else_value` that it had before the conditional.
    fn merge_cell_consequence<O: PrimitiveOperations<E>>(
        &mut self,
        address: usize,
        else_value: Option<E>,
        condition: &E,
        operations: &mut O,
        calls: &mut Ghost<Seq<OperationCall<E>>>,
    ) -> (r: Result<(), RuntimeError>)
        requires
            address < old(self).memory@.len(),
        ensures
            final(self).branches == old(self).branches,
            final(self).memory@.len() == old(self).memory@.len(),
            forall|a: int| a != address ==> #[trigger] cell(final(self).memory@, a) == cell(old(self).memory@, a),
            r is Ok ==> merge_result::<E, O>(*condition, cell(old(self).memory@, address as int), else_value, cell(final(self).memory@, address as int)),
            !needs_selection(cell(old(self).memory@, address as int), else_value) ==> r is Ok && final(calls)@
                == old(calls)@,
            needs_selection(cell(old(self).memory@, address as int), else_value) ==> selection_logged::<E, O>(
                old(calls)@,
                final(calls)@,
                *condition,
                cell(old(self).memory@, address as int)->Some_0,
                else_value->Some_0,
                r,
            ),
            r is Err ==> final(self).memory@ == old(self).memory@,
    {
        if self.memory[address].is_none() {
            self.memory.set(address, else_value);
            return Ok(());
        }
        if else_value.is_none() {
            return Ok(());
        }
        let result = match (&self.memory[address], &else_value) {
            (Some(t), Some(e)) => {
                let result = operations.conditional_select(condition, t, e);
                proof {
                    calls@ = calls@.push(OperationCall::Select { condition: *condition, if_true: *t, if_false: *e, result });
                    assert(calls@.drop_last() =~= old(calls)@);
                }
                result
            },
            _ => {
                return Err(RuntimeError::OperationFailed);
            },
        };
        let merged = match result {
            Ok(merged) => merged,
            Err(e) => {
                return Err(e);
            },
        };
        self.memory.set(address, Some(merged));
        Ok(())
    }

    /// Closes a conditional with an alternative: first the cells the
    /// consequence wrote, then those that only the alternative wrote.
    #[verifier::loop_isolation(false)]
    fn merge_alternative<O: PrimitiveOperations<E>>(
        &mut self,
        then_values: Vec<(usize, Option<E>)>,
        saved: Vec<(usize, Option<E>)>,
        condition: &E,
        operations: &mut O,
        calls: &mut Ghost<Seq<OperationCall<E>>>,
    ) -> (r: Result<(), RuntimeError>)
        requires
            old(self).wf(),
            list_wf(then_values@, old(self).memory@.len()),
            list_wf(saved@, old(self).memory@.len()),
        ensures
            final(self).branches == old(self).branches,
            final(self).wf(),
            final(self).memory@.len() == old(self).memory@.len(),
            forall|a: int| !records(then_values@, a) && !records(saved@, a) ==> #[trigger] cell(final(self).memory@, a)
                == cell(old(self).memory@, a),
            r is Ok ==> forall|a: int| #[trigger] records(then_values@, a) ==> merge_result::<E, O>(*condition, 
                recorded(then_values@, a),
                cell(old(self).memory@, a),
                cell(final(self).memory@, a),
            ),
            r is Ok ==> forall|a: int| #[trigger] records(saved@, a) && !records(then_values@, a) ==> merge_result::<E, O>(*condition, 
                recorded(saved@, a),
                cell(old(self).memory@, a),
                cell(final(self).memory@, a),
            ),
            !alternative_needs_selection(then_values@, saved@, old(self).memory@) ==> r is Ok,
            final(calls)@.len() >= old(calls)@.len(),
            final(calls)@.take(old(calls)@.len() as int) == old(calls)@,
            merge_log::<E, O>(
                final(calls)@.skip(old(calls)@.len() as int),
                *condition,
                DataBranch::IfThenElse { then_values, saved },
                old(self).memory@,
                r,
            ),
    {
        let ghost memory0 = self.memory@;
        let ghost tv = then_values@;
        let ghost sv = saved@;
        let ghost top = DataBranch::IfThenElse { then_values, saved };
        let ghost calls0 = calls@;
        proof {
            assert(tv.len() == then_values.len() && sv.len() == saved.len());
            assert(calls@.take(calls0.len() as int) =~= calls0);
            assert(forall|a: int| #[trigger] top.touches(a) == (records(tv, a) || records(sv, a)));
        }
        let mut then_values = then_values;
        let mut then_addresses: Vec<(usize, Option<E>)> = Vec::new();
        let mut k: usize = 0;
        while then_values.len() > 0
            invariant
                self.branches == old(self).branches,
                self.wf(),
                memory0 == old(self).memory@,
                self.memory@.len() == memory0.len(),
                list_wf(tv, memory0.len()),
                tv.len() <= usize::MAX,
                k <= tv.len(),
                then_values@ == tv.skip(k as int),
                then_addresses@.len() == k,
                forall|j: int| 0 <= j < k ==> (#[trigger] then_addresses@[j]).0 == tv[j].0,
                forall|a: int| !(exists|j: int| 0 <= j < k && tv[j].0 == a) ==> #[trigger] cell(self.memory@, a) == cell(memory0, a),
                forall|j: int| 0 <= j < k ==> merge_result::<E, O>(*condition, 
                    tv[j].1,
                    #[trigger] cell(memory0, tv[j].0 as int),
                    cell(self.memory@, tv[j].0 as int),
                ),
                calls@.len() >= calls0.len(),
                calls@.take(calls0.len() as int) == calls0,
                cell_selections_succeed::<E, O>(calls@, calls0.len() as int, *condition, top, memory0),
            decreases then_values.len(),
        {
            let (address, value) = then_values.remove(0);
            let ghost before = self.memory@;
            proof {
                assert(tv[k as int] == (address, value));
                assert forall|j: int| 0 <= j < k implies tv[j].0 != address by {
                    assert(tv[j].0 != tv[k as int].0);
                }
                assert(cell(before, address as int) == cell(memory0, address as int));
            }
            let ghost log = calls@;
            let result = self.merge_cell(address, value, condition, operations, calls);
            proof {
                lemma_recorded(tv, memory0.len(), k as int);
                assert(top.touches(address as int));
                assert(merge_values(top, memory0, address as int) == (value, cell(before, address as int)));
                if needs_selection(value, cell(before, address as int)) {
                    assert(calls@.drop_last() == log);
                    assert(is_cell_selection::<E, O>(calls@.last(), *condition, top, memory0));
                    assert(calls@.take(calls0.len() as int) =~= calls0);
                    if result is Ok {
                        assert forall|i: int| calls0.len() <= i < calls@.len() implies is_cell_selection::<E, O>(
                            #[trigger] calls@[i],
                            *condition,
                            top,
                            memory0,
                        ) && call_result(calls@[i]) is Ok by {
                            if i < calls@.len() - 1 {
                                assert(calls@[i] == log[i]);
                            }
                        }
                    } else {
                        lemma_merge_log_failed::<E, O>(calls@, calls0.len() as int, *condition, top, memory0, result->Err_0);
                    }
                }
            }
            proof {
                assert forall|a: int| !(exists|j: int| 0 <= j < k + 1 && tv[j].0 == a) implies #[trigger] cell(
                    self.memory@,
                    a,
                ) == cell(memory0, a) by {
                    assert(tv[k as int].0 != a);
                    assert(cell(self.memory@, a) == cell(before, a));
                }
                assert forall|j: int| 0 <= j < k implies merge_result::<E, O>(*condition, 
                    tv[j].1,
                    #[trigger] cell(memory0, tv[j].0 as int),
                    cell(self.memory@, tv[j].0 as int),
                ) by {
                    assert(tv[j].0 != address);
                    assert(cell(self.memory@, tv[j].0 as int) == cell(before, tv[j].0 as int));
                }
            }
            match result {
                Ok(()) => {},
                Err(e) => {
                    proof {
                        lemma_recorded(tv, memory0.len(), k as int);
                        assert(records(tv, address as int) && needs_selection(
                            recorded(tv, address as int),
                            cell(memory0, address as int),
                        ));
                        assert forall|a: int| !records(tv, a) && !records(sv, a) implies #[trigger] cell(
                            self.memory@,
                            a,
                        ) == cell(memory0, a) by {
                            if exists|j: int| 0 <= j < k + 1 && tv[j].0 == a {
                                let j = choose|j: int| 0 <= j < k + 1 && tv[j].0 == a;
                                assert(records(tv, a));
                            }
                        }
                    }
                    return Err(e);
                },
            }
            then_addresses.push((address, None));
            k = k + 1;
            proof {
                assert(then_values@ =~= tv.skip(k as int));
            }
        }
        let ghost middle = self.memory@;
        proof {
            assert forall|a: int| #[trigger] records(tv, a) implies merge_result::<E, O>(*condition, 
                recorded(tv, a),
                cell(memory0, a),
                cell(middle, a),
            ) by {
                let j = choose|j: int| 0 <= j < tv.len() && tv[j].0 == a;
                lemma_recorded(tv, memory0.len(), j);
                assert(merge_result::<E, O>(*condition, tv[j].1, cell(memory0, tv[j].0 as int), cell(middle, tv[j].0 as int)));
            }
            assert forall|a: int| !records(tv, a) implies #[trigger] cell(middle, a) == cell(memory0, a) by {
                assert(!(exists|j: int| 0 <= j < k && tv[j].0 == a));
            }
            assert forall|a: int| #[trigger] records(then_addresses@, a) == records(tv, a) by {
                if records(then_addresses@, a) {
                    let j = choose|j: int| 0 <= j < then_addresses@.len() && then_addresses@[j].0 == a;
                    assert(tv[j].0 == a);
                }
                if records(tv, a) {
                    let j = choose|j: int| 0 <= j < tv.len() && tv[j].0 == a;
                    assert(then_addresses@[j].0 == a);
                }
            }
        }
        let mut saved = saved;
        let mut m: usize = 0;
        while saved.len() > 0
            invariant
                self.branches == old(self).branches,
                self.wf(),
                self.memory@.len() == memory0.len(),
                list_wf(sv, memory0.len()),
                sv.len() <= usize::MAX,
                memory0 == old(self).memory@,
                forall|a: int| !records(tv, a) ==> #[trigger] cell(middle, a) == cell(memory0, a),
                m <= sv.len(),
                saved@ == sv.skip(m as int),
                forall|a: int| #[trigger] records(then_addresses@, a) == records(tv, a),
                forall|a: int| !(exists|j: int| 0 <= j < m && sv[j].0 == a && !records(tv, a)) ==> #[trigger] cell(self.memory@, a) == cell(middle, a),
                forall|j: int| 0 <= j < m && !records(tv, sv[j].0 as int) ==> merge_result::<E, O>(*condition, 
                    sv[j].1,
                    #[trigger] cell(middle, sv[j].0 as int),
                    cell(self.memory@, sv[j].0 as int),
                ),
                calls@.len() >= calls0.len(),
                calls@.take(calls0.len() as int) == calls0,
                cell_selections_succeed::<E, O>(calls@, calls0.len() as int, *condition, top, memory0),
            decreases saved.len(),
        {
            let (address, earlier) = saved.remove(0);
            let ghost before = self.memory@;
            proof {
                assert(sv[m as int] == (address, earlier));
                assert forall|j: int| 0 <= j < m implies sv[j].0 != address by {
                    assert(sv[j].0 != sv[m as int].0);
                }
            }
            if !Self::find(&then_addresses, address) {
                proof {
                    assert(cell(before, address as int) == cell(middle, address as int));
                }
                let ghost log = calls@;
                let result = self.merge_cell(address, earlier, condition, operations, calls);
                proof {
                    lemma_recorded(sv, memory0.len(), m as int);
                    assert(!records(tv, address as int));
                    assert(top.touches(address as int));
                    assert(merge_values(top, memory0, address as int) == (earlier, cell(before, address as int)));
                    if needs_selection(earlier, cell(before, address as int)) {
                        assert(calls@.drop_last() == log);
                        assert(is_cell_selection::<E, O>(calls@.last(), *condition, top, memory0));
                        assert(calls@.take(calls0.len() as int) =~= calls0);
                        if result is Ok {
                            assert forall|i: int| calls0.len() <= i < calls@.len() implies is_cell_selection::<E, O>(
                                #[trigger] calls@[i],
                                *condition,
                                top,
                                memory0,
                            ) && call_result(calls@[i]) is Ok by {
                                if i < calls@.len() - 1 {
                                    assert(calls@[i] == log[i]);
                                }
                            }
                        } else {
                            lemma_merge_log_failed::<E, O>(
                                calls@,
                                calls0.len() as int,
                                *condition,
                                top,
                                memory0,
                                result->Err_0,
                            );
                        }
                    }
                }
                proof {
                    assert forall|a: int| !(exists|j: int| 0 <= j < m + 1 && sv[j].0 == a && !records(tv, a)) implies #[trigger] cell(
                        self.memory@,
                        a,
                    ) == cell(middle, a) by {
                        assert(cell(self.memory@, a) == cell(before, a));
                    }
                    assert forall|j: int| 0 <= j < m && !records(tv, sv[j].0 as int) implies merge_result::<E, O>(*condition, 
                        sv[j].1,
                        #[trigger] cell(middle, sv[j].0 as int),
                        cell(self.memory@, sv[j].0 as int),
                    ) by {
                        assert(sv[j].0 != address);
                        assert(cell(self.memory@, sv[j].0 as int) == cell(before, sv[j].0 as int));
                    }
                }
                match result {
                    Ok(()) => {},
                    Err(e) => {
                        proof {
                            lemma_recorded(sv, memory0.len(), m as int);
                            assert(!records(tv, address as int));
                            assert(cell(middle, address as int) == cell(memory0, address as int));
                            assert(records(sv, address as int) && !records(tv, address as int) && needs_selection(
                                recorded(sv, address as int),
                                cell(memory0, address as int),
                            ));
                            assert forall|a: int| !records(tv, a) && !records(sv, a) implies #[trigger] cell(
                                self.memory@,
                                a,
                            ) == cell(memory0, a) by {
                                assert(sv[m as int].0 == address);
                                assert(a != address);
                                assert(cell(self.memory@, a) == cell(before, a));
                                assert(!(exists|j: int| 0 <= j < m && sv[j].0 == a && !records(tv, a)));
                                assert(cell(before, a) == cell(middle, a));
                            }
                        }
                        return Err(e);
                    },
                }
            }
            m = m + 1;
            proof {
                assert(saved@ =~= sv.skip(m as int));
            }
        }
        proof {
            assert forall|a: int| #[trigger] records(sv, a) && !records(tv, a) implies merge_result::<E, O>(*condition, 
                recorded(sv, a),
                cell(memory0, a),
                cell(self.memory@, a),
            ) by {
                let j = choose|j: int| 0 <= j < sv.len() && sv[j].0 == a;
                lemma_recorded(sv, memory0.len(), j);
                assert(merge_result::<E, O>(*condition, sv[j].1, cell(middle, sv[j].0 as int), cell(self.memory@, sv[j].0 as int)));
            }
            assert forall|a: int| #[trigger] records(tv, a) implies merge_result::<E, O>(*condition, 
                recorded(tv, a),
                cell(memory0, a),
                cell(self.memory@, a),
            ) by {
                assert(!(exists|j: int| 0 <= j < m && sv[j].0 == a && !records(tv, a)));
            }
            assert forall|a: int| !records(tv, a) && !records(sv, a) implies #[trigger] cell(self.memory@, a) == cell(
                memory0,
                a,
            ) by {}
            lemma_merge_log_ok::<E, O>(calls@, calls0.len() as int, *condition, top, memory0);
        }
        Ok(())
    }
}

} // verus!
