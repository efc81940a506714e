//! The instructions of function calls.

use vstd::prelude::*;

use crate::vm::call_effect;
use crate::vm::ret_effect;
use crate::vm::InternalVM;
use crate::vm::VirtualMachine;
use crate::vm_state::PrimitiveOperations;
use crate::vm_state::RuntimeError;

verus! {

/// Calls the function at `address` with `inputs_count` arguments.
#[derive(Debug, Clone, Copy, PartialEq, Eq)]
pub struct Call {
    pub address: usize,
    pub inputs_count: usize,
}

/// Returns from the current function with `outputs_count` results.
#[derive(Debug, Clone, Copy, PartialEq, Eq)]
pub struct Return {
    pub outputs_count: usize,
}

impl Call {
    pub fn new(address: usize, inputs_count: usize) -> (r: Call)
        ensures
            r.address == address,
            r.inputs_count == inputs_count,
    {
        Call { address, inputs_count }
    }

    pub fn execute<E: Clone, O: PrimitiveOperations<E>>(&self, vm: &mut VirtualMachine<E, O>) -> (r: Result<(), RuntimeError>)
        requires
            old(vm).well_formed(),
            old(vm).can_call(self.inputs_count),
        ensures
            final(vm).well_formed(),
            call_effect(old(vm)@, self.address, self.inputs_count, final(vm)@, r),
    {
        vm.call(self.address, self.inputs_count)
    }
}

impl Return {
    pub fn new(outputs_count: usize) -> (r: Return)
        ensures
            r.outputs_count == outputs_count,
    {
        Return { outputs_count }
    }

    pub fn execute<E: Clone, O: PrimitiveOperations<E>>(&self, vm: &mut VirtualMachine<E, O>) -> (r: Result<(), RuntimeError>)
        ensures
            ret_effect(old(vm)@, self.outputs_count, final(vm)@, r),
    {
        vm.ret(self.outputs_count)
    }
}

} // verus!
