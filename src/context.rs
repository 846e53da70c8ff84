use vstd::prelude::*;

verus! {

/// Number of machine-word slots in a saved register context.
pub const CONTEXT_SLOTS: usize = 15;

/// Slot of the return-address register `ra`.
pub const RA: usize = 0;

/// Slot of the stack pointer `sp`.
pub const SP: usize = 1;

/// First of the twelve slots of the callee-saved registers `s0` to `s11`.
pub const S0: usize = 2;

/// Slot of the address that the switch jumps to when the context is resumed.
pub const ENTRY: usize = 14;

/// The registers that survive a cooperative switch, as machine words in the fixed
/// order that the switch routine stores and loads them: `ra`, `sp`, `s0` to `s11`,
/// then the control-transfer slot. The record is meaningful only while its task is
/// not the one executing.
#[derive(Clone, Copy, Debug)]
pub struct ThreadContext {
    pub regs: [u64; CONTEXT_SLOTS],
}

impl ThreadContext {
    /// A context with every slot zero.
    pub fn new() -> (r: ThreadContext)
        ensures
            forall|k: int| 0 <= k < CONTEXT_SLOTS ==> r.regs@[k] == 0,
    {
        ThreadContext { regs: [0u64; CONTEXT_SLOTS] }
    }

    /// Seeds the context of a task that has never run: the switch jumps to `entry`
    /// on a stack whose pointer is `stack_top`, and a return from the task's body
    /// lands at `return_to`. The other slots are kept.
    pub fn prepare_entry(&mut self, entry: u64, return_to: u64, stack_top: u64)
        ensures
            final(self).regs@ == old(self).regs@.update(RA as int, return_to).update(
                SP as int,
                stack_top,
            ).update(ENTRY as int, entry),
    {
        self.regs[RA] = return_to;
        self.regs[SP] = stack_top;
        self.regs[ENTRY] = entry;
    }

    /// The saved return address.
    pub fn return_address(&self) -> (r: u64)
        ensures
            r == self.regs@[RA as int],
    {
        self.regs[RA]
    }

    /// The saved stack pointer.
    pub fn stack_pointer(&self) -> (r: u64)
        ensures
            r == self.regs@[SP as int],
    {
        self.regs[SP]
    }

    /// The address at which the context resumes.
    pub fn entry(&self) -> (r: u64)
        ensures
            r == self.regs@[ENTRY as int],
    {
        self.regs[ENTRY]
    }
}

} // verus!
