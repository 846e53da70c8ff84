use vstd::prelude::*;

use crate::context::ThreadContext;

verus! {

/// Lifecycle state of a thread control block.
#[derive(PartialEq, Eq, Structural, Clone, Copy, Debug)]
pub enum State {
    /// Free: holds no task; its stack contents mean nothing.
    Available,
    /// Executing on the CPU.
    Running,
    /// Holds a task that is set up to run but is not executing.
    Ready,
}

/// A thread control block: one stack, one saved register context, one state.
pub struct Thread {
    pub stack: Vec<u8>,
    pub ctx: ThreadContext,
    pub state: State,
}

impl Thread {
    /// A free block with a zero-filled stack of `stack_size` bytes and a zeroed
    /// context.
    pub fn new(stack_size: usize) -> (r: Thread)
        ensures
            r.stack@.len() == stack_size,
            forall|k: int| 0 <= k < stack_size ==> r.stack@[k] == 0,
            forall|k: int| 0 <= k < crate::context::CONTEXT_SLOTS ==> r.ctx.regs@[k] == 0,
            r.state == State::Available,
    {
        Thread::with_state(stack_size, State::Available)
    }

    /// A block in `state` with a zero-filled stack of `stack_size` bytes and a
    /// zeroed context.
    pub fn with_state(stack_size: usize, state: State) -> (r: Thread)
        ensures
            r.stack@.len() == stack_size,
            forall|k: int| 0 <= k < stack_size ==> r.stack@[k] == 0,
            forall|k: int| 0 <= k < crate::context::CONTEXT_SLOTS ==> r.ctx.regs@[k] == 0,
            r.state == state,
    {
        Thread { stack: vec![0u8; stack_size], ctx: ThreadContext::new(), state }
    }
}

} // verus!
